//! Encoding a whole index to bytes and back, in two formats.
//!
//! `Json` is the json-lines format of `ndjson`: one record per line, stable
//! and easy to inspect.  `Bin` frames each property's portable bitmap
//! serialization in a length-prefixed container written by `bincode`.

use vstd::prelude::*;

use crate::cis::{cis_from_bytes, cis_serialize, cis_set, cis_to_vec, cis_try_deserialize};
use crate::index::{stored_or_empty, Index};
use crate::ndjson::{
    doc_chars, lines_of, spec_decode, spec_decode_lines, spec_line, first_nl, parse_line,
    print_line, JsonFailure,
};
use crate::expression::{is_valid_name, validate_property_name};
use crate::text::{str_eq, string_from_chars};

verus! {

/// How encoding or decoding an index can fail.
#[derive(Debug, PartialEq, Eq, Clone)]
pub enum Error {
    /// A non-empty line is not a record of the expected shape.
    Json,
    /// The binary container cannot be written or read.
    Bincode,
    /// Two records name the same property.
    DuplicateProperty(String),
    /// A record names a property that the expression grammar rejects.
    InvalidProperty(String),
    /// A property's serialized bitmap cannot be read back.
    InvalidBitmap(String),
    /// No encoder goes by this label.
    UnknownEncoder(String),
}

/// The two encodings of an index.
#[derive(Debug, Clone, Copy, PartialEq, Eq)]
pub enum Encoder {
    /// One JSON object per line: `{"property": ..., "values": [...]}`.
    Json,
    /// A length-prefixed container of `(name, bitmap bytes)` pairs.
    Bin,
}

/// A sequence of ascending identifiers enumerating exactly the set `s`.
pub open spec fn is_ascending_enum(q: Seq<u32>, s: Set<u32>) -> bool {
    &&& forall|i: int, j: int| 0 <= i < j < q.len() ==> q[i] < q[j]
    &&& forall|i: int| 0 <= i < q.len() ==> s.contains(#[trigger] q[i])
    &&& forall|x: u32| s.contains(x) ==> q.contains(x)
}

/// Whether `pm` pairs up the entries of an index: the names in order, each
/// with the ascending enumeration of its set.
pub open spec fn pairs_model_of(s: Seq<(String, croaring::Bitmap)>, pm: Seq<(Seq<char>, Seq<u32>)>) -> bool {
    &&& pm.len() == s.len()
    &&& forall|i: int| 0 <= i < s.len() ==> (#[trigger] pm[i]).0 == s[i].0@
    &&& forall|i: int| 0 <= i < s.len() ==> is_ascending_enum((#[trigger] pm[i]).1, cis_set(s[i].1))
}

/// Whether `pm` frames the entries of an index for the binary format: the
/// names in order, each with bytes that deserialize back to its set.
pub open spec fn bin_model_of(s: Seq<(String, croaring::Bitmap)>, pm: Seq<(Seq<char>, Seq<u8>)>) -> bool {
    &&& pm.len() == s.len()
    &&& forall|i: int| 0 <= i < s.len() ==> (#[trigger] pm[i]).0 == s[i].0@
    &&& forall|i: int|
        0 <= i < s.len() ==> cis_from_bytes((#[trigger] pm[i]).1) == Some(cis_set(s[i].1))
}

/// The pairs a binary container decodes to, or `None` when the bytes are
/// not a container that `bincode` reads back as `(String, bytes)` pairs.
/// This names the result of `bincode::deserialize::<Vec<(String, Vec<u8>)>>`,
/// which depends on the input bytes alone.
pub uninterp spec fn bin_pairs_of(bytes: Seq<u8>) -> Option<Seq<(Seq<char>, Seq<u8>)>>;

/// The views of framed pairs.
pub open spec fn frame_views(v: Seq<(String, Vec<u8>)>) -> Seq<(Seq<char>, Seq<u8>)> {
    v.map_values(|p: (String, Vec<u8>)| (p.0@, p.1@))
}

/// Relies on `bincode::serialize`: the produced container deserializes back
/// to the same pairs.  Serializing strings and byte vectors into a fresh
/// vector cannot fail: no size limit is configured and a vector writer
/// never errors, which are the only failure sources.
#[verifier::external_body]
fn bincode_encode_pairs(pairs: &Vec<(String, Vec<u8>)>) -> (r: Vec<u8>)
    ensures
        bin_pairs_of(r@) == Some(frame_views(pairs@)),
{
    bincode::serialize(pairs).expect("serializing into a vector cannot fail")
}

/// Relies on `bincode::deserialize`: reads a container of `(String, bytes)`
/// pairs, or fails on input that is no such container.
#[verifier::external_body]
fn bincode_decode_pairs(bytes: &[u8]) -> (r: Option<Vec<(String, Vec<u8>)>>)
    ensures
        match r {
            Some(v) => bin_pairs_of(bytes@) == Some(frame_views(v@)),
            None => bin_pairs_of(bytes@) is None,
        },
{
    bincode::deserialize(bytes).ok()
}

/// How decoding the binary format can fail, at the level of models.
pub enum BinFailure {
    /// The container itself cannot be read.
    NotAContainer,
    /// Two pairs name the same property.
    Repeated(Seq<char>),
    /// A pair's bitmap bytes cannot be read back.
    BadBitmap(Seq<char>),
}

/// Fold the framed pairs into an index model: each pair's bytes must read
/// back as a bitmap, and no name may repeat.
pub open spec fn spec_decode_bin_pairs(pm: Seq<(Seq<char>, Seq<u8>)>, acc: Map<Seq<char>, Set<u32>>) -> Result<Map<Seq<char>, Set<u32>>, BinFailure>
    decreases pm.len(),
{
    if pm.len() == 0 {
        Ok(acc)
    } else if acc.dom().contains(pm[0].0) {
        Err(BinFailure::Repeated(pm[0].0))
    } else {
        match cis_from_bytes(pm[0].1) {
            None => Err(BinFailure::BadBitmap(pm[0].0)),
            Some(s) => spec_decode_bin_pairs(pm.drop_first(), acc.insert(pm[0].0, s)),
        }
    }
}

/// What decoding a whole binary container means.
pub open spec fn spec_decode_bin(bytes: Seq<u8>) -> Result<Map<Seq<char>, Set<u32>>, BinFailure> {
    match bin_pairs_of(bytes) {
        None => Err(BinFailure::NotAContainer),
        Some(pm) => spec_decode_bin_pairs(pm, Map::<Seq<char>, Set<u32>>::empty()),
    }
}

impl Encoder {
    /// The encoder a format label names: `bin`, `crible` or an empty label
    /// name the binary format; `json`, `ndjson` and `ljson` name the
    /// json-lines format.
    pub fn parse_label(s: &str) -> (r: Result<Encoder, Error>)
        ensures
            match r {
                Ok(Encoder::Bin) => s@ == Seq::<char>::empty() || s@ == "bin"@ || s@
                    == "crible"@,
                Ok(Encoder::Json) => s@ == "json"@ || s@ == "ndjson"@ || s@ == "ljson"@,
                Err(e) => e matches Error::UnknownEncoder(x) && x@ == s@ && s@
                    != Seq::<char>::empty() && s@ != "bin"@ && s@ != "crible"@ && s@ != "json"@
                    && s@ != "ndjson"@ && s@ != "ljson"@,
            },
    {
        if s.unicode_len() == 0 {
            proof {
                assert(s@ =~= Seq::<char>::empty());
            }
            Ok(Encoder::Bin)
        } else if str_eq(s, "bin") || str_eq(s, "crible") {
            Ok(Encoder::Bin)
        } else if str_eq(s, "json") || str_eq(s, "ndjson") || str_eq(s, "ljson") {
            Ok(Encoder::Json)
        } else {
            Err(Error::UnknownEncoder(s.to_owned()))
        }
    }

    /// Encode a whole index; encoding always succeeds.  The json-lines
    /// bytes are the UTF-8 of one record per property, names ascending and
    /// values ascending; the binary bytes are a container whose pairs read
    /// back as the same properties with the same sets.
    pub fn encode(self, index: &Index) -> (r: Result<Vec<u8>, Error>)
        requires
            index.wf(),
        ensures
            match r {
                Ok(bs) => match self {
                    Encoder::Json => exists|pm: Seq<(Seq<char>, Seq<u32>)>|
                        #[trigger] pairs_model_of(index.entry_seq(), pm) && bs@
                            == vstd::utf8::encode_utf8(doc_chars(pm)),
                    Encoder::Bin => exists|pm: Seq<(Seq<char>, Seq<u8>)>|
                        #[trigger] bin_model_of(index.entry_seq(), pm) && bin_pairs_of(bs@)
                            == Some(pm),
                },
                Err(_) => false,
            },
    {
        proof {
            index.lemma_wf_entries();
        }
        match self {
            Encoder::Json => {
                let entries = index.inner();
                let mut out: Vec<char> = Vec::new();
                let ghost mut pm: Seq<(Seq<char>, Seq<u32>)> = Seq::empty();
                let n = entries.len();
                let mut i: usize = 0;
                while i < n
                    invariant
                        0 <= i <= n,
                        n == entries@.len(),
                        entries@ == index.entry_seq(),
                        pm.len() == i,
                        forall|j: int| 0 <= j < i ==> (#[trigger] pm[j]).0 == entries@[j].0@,
                        forall|j: int|
                            0 <= j < i ==> is_ascending_enum(
                                (#[trigger] pm[j]).1,
                                cis_set(entries@[j].1),
                            ),
                        out@ == doc_chars(pm),
                    decreases n - i,
                {
                    let vals = cis_to_vec(&entries[i].1);
                    print_line(&mut out, entries[i].0.as_str(), &vals);
                    out.push('\n');
                    proof {
                        let prev = pm;
                        pm = pm.push((entries@[i as int].0@, vals@));
                        assert(pm.drop_last() =~= prev);
                        assert(out@ =~= doc_chars(pm));
                    }
                    i = i + 1;
                }
                let s = string_from_chars(&out);
                let bytes = s.as_str().as_bytes_vec();
                proof {
                    assert(pairs_model_of(index.entry_seq(), pm));
                }
                Ok(bytes)
            },
            Encoder::Bin => {
                let entries = index.inner();
                let mut frames: Vec<(String, Vec<u8>)> = Vec::new();
                let n = entries.len();
                let mut i: usize = 0;
                while i < n
                    invariant
                        0 <= i <= n,
                        n == entries@.len(),
                        entries@ == index.entry_seq(),
                        frames@.len() == i,
                        forall|j: int|
                            0 <= j < i ==> (#[trigger] frames@[j]).0@ == entries@[j].0@
                                && cis_from_bytes(frames@[j].1@) == Some(cis_set(entries@[j].1)),
                    decreases n - i,
                {
                    let bytes = cis_serialize(&entries[i].1);
                    frames.push((entries[i].0.clone(), bytes));
                    i = i + 1;
                }
                let bs = bincode_encode_pairs(&frames);
                proof {
                    let pm = frame_views(frames@);
                    assert(bin_model_of(index.entry_seq(), pm));
                }
                Ok(bs)
            },
        }
    }

    /// Decode a whole index from bytes in this format.
    pub fn decode(self, data: &[u8]) -> (r: Result<Index, Error>)
        ensures
            match self {
                Encoder::Json => match r {
                    Ok(idx) => idx.wf() && spec_decode(data@) == Ok::<
                        Map<Seq<char>, Set<u32>>,
                        JsonFailure,
                    >(idx@),
                    Err(e) => match e {
                        Error::Json => spec_decode(data@) == Err::<
                            Map<Seq<char>, Set<u32>>,
                            JsonFailure,
                        >(JsonFailure::NotARecord),
                        Error::InvalidProperty(nm) => spec_decode(data@) == Err::<
                            Map<Seq<char>, Set<u32>>,
                            JsonFailure,
                        >(JsonFailure::BadName(nm@)),
                        Error::DuplicateProperty(nm) => spec_decode(data@) == Err::<
                            Map<Seq<char>, Set<u32>>,
                            JsonFailure,
                        >(JsonFailure::Repeated(nm@)),
                        _ => false,
                    },
                },
                Encoder::Bin => match r {
                    Ok(idx) => idx.wf() && spec_decode_bin(data@) == Ok::<
                        Map<Seq<char>, Set<u32>>,
                        BinFailure,
                    >(idx@),
                    Err(e) => match e {
                        Error::Bincode => spec_decode_bin(data@) == Err::<
                            Map<Seq<char>, Set<u32>>,
                            BinFailure,
                        >(BinFailure::NotAContainer),
                        Error::DuplicateProperty(nm) => spec_decode_bin(data@) == Err::<
                            Map<Seq<char>, Set<u32>>,
                            BinFailure,
                        >(BinFailure::Repeated(nm@)),
                        Error::InvalidBitmap(nm) => spec_decode_bin(data@) == Err::<
                            Map<Seq<char>, Set<u32>>,
                            BinFailure,
                        >(BinFailure::BadBitmap(nm@)),
                        _ => false,
                    },
                },
            },
    {
        match self {
            Encoder::Json => decode_json(data),
            Encoder::Bin => decode_bin(data),
        }
    }
}

/// Find the first newline at or after the start of the slice.
fn e_first_nl(s: &[u8]) -> (r: usize)
    ensures
        r as int == first_nl(s@, 0),
        r <= s@.len(),
{
    let n = s.len();
    let mut j: usize = 0;
    while j < n && s[j] != 0x0A
        invariant
            0 <= j <= n,
            n == s@.len(),
            first_nl(s@, 0) == first_nl(s@, j as int),
        decreases n - j,
    {
        j = j + 1;
    }
    j
}

/// Apply one non-empty record line to the index, or report why it cannot
/// be applied.
fn apply_record(index: &mut Index, line: &[u8]) -> (r: Result<(), Error>)
    requires
        old(index).wf(),
    ensures
        match r {
            Ok(()) => final(index).wf() && (spec_line(line@) matches Some((nm, vals))
                && is_valid_name(nm) && !old(index)@.dom().contains(nm) && final(index)@
                == old(index)@.insert(nm, vals.to_set())),
            Err(e) => match e {
                Error::Json => spec_line(line@) is None,
                Error::InvalidProperty(nm) => spec_line(line@) matches Some((n2, _)) && n2
                    == nm@ && !is_valid_name(nm@),
                Error::DuplicateProperty(nm) => spec_line(line@) matches Some((n2, _)) && n2
                    == nm@ && is_valid_name(nm@) && old(index)@.dom().contains(nm@),
                _ => false,
            },
        },
{
    match parse_line(line) {
        None => Err(Error::Json),
        Some((name_chars, values)) => {
            let name = string_from_chars(&name_chars);
            if !validate_property_name(name.as_str()) {
                return Err(Error::InvalidProperty(name));
            }
            let already = match index.get_property(name.as_str()) {
                Some(_) => true,
                None => false,
            };
            if already {
                return Err(Error::DuplicateProperty(name));
            }
            let ghost acc = index@;
            index.set_many(name.as_str(), values.as_slice());
            proof {
                assert(stored_or_empty(acc, name@).union(values@.to_set())
                    =~= values@.to_set());
            }
            Ok(())
        },
    }
}

/// Decode json-lines records into an index.
#[verifier::rlimit(100)]
#[verifier::spinoff_prover]
fn decode_json(data: &[u8]) -> (r: Result<Index, Error>)
    ensures
        match r {
            Ok(idx) => idx.wf() && spec_decode(data@) == Ok::<
                Map<Seq<char>, Set<u32>>,
                JsonFailure,
            >(idx@),
            Err(e) => match e {
                Error::Json => spec_decode(data@) == Err::<
                    Map<Seq<char>, Set<u32>>,
                    JsonFailure,
                >(JsonFailure::NotARecord),
                Error::InvalidProperty(nm) => spec_decode(data@) == Err::<
                    Map<Seq<char>, Set<u32>>,
                    JsonFailure,
                >(JsonFailure::BadName(nm@)),
                Error::DuplicateProperty(nm) => spec_decode(data@) == Err::<
                    Map<Seq<char>, Set<u32>>,
                    JsonFailure,
                >(JsonFailure::Repeated(nm@)),
                _ => false,
            },
        },
{
    let mut index = Index::new();
    let n = data.len();
    let mut start: usize = 0;
    proof {
        assert(data@.skip(0) =~= data@);
    }
    while start < n
        invariant
            0 <= start <= n,
            n == data@.len(),
            index.wf(),
            spec_decode(data@) == spec_decode_lines(lines_of(data@.skip(start as int)), index@),
        decreases n - start,
    {
        let rest: &[u8] = &data[start..n];
        proof {
            assert(rest@ =~= data@.skip(start as int));
        }
        let k = e_first_nl(rest);
        let line: &[u8] = if k < rest.len() {
            if k > 0 && rest[k - 1] == 0x0D {
                &rest[0..k - 1]
            } else {
                &rest[0..k]
            }
        } else {
            rest
        };
        proof {
            let raw = rest@.subrange(0, k as int);
            if k < rest@.len() {
                if k > 0 && rest@[k as int - 1] == 0x0D {
                    assert(line@ =~= raw.drop_last());
                } else {
                    assert(line@ =~= raw);
                }
                assert(lines_of(rest@) == seq![line@] + lines_of(rest@.skip(k as int + 1)));
            } else {
                assert(line@ =~= rest@);
                assert(lines_of(rest@) == seq![rest@]);
            }
            assert(lines_of(rest@)[0] == line@);
            assert(lines_of(rest@).len() >= 1);
        }
        let ghost acc = index@;
        if line.len() > 0 {
            match apply_record(&mut index, line) {
                Ok(()) => {
                    proof {
                        assert(spec_decode_lines(lines_of(rest@), acc) == spec_decode_lines(
                            lines_of(rest@).drop_first(),
                            index@,
                        ));
                    }
                },
                Err(e) => {
                    proof {
                        assert(match e {
                            Error::Json => spec_decode_lines(lines_of(rest@), acc) == Err::<
                                Map<Seq<char>, Set<u32>>,
                                JsonFailure,
                            >(JsonFailure::NotARecord),
                            Error::InvalidProperty(nm) => spec_decode_lines(
                                lines_of(rest@),
                                acc,
                            ) == Err::<Map<Seq<char>, Set<u32>>, JsonFailure>(
                                JsonFailure::BadName(nm@),
                            ),
                            Error::DuplicateProperty(nm) => spec_decode_lines(
                                lines_of(rest@),
                                acc,
                            ) == Err::<Map<Seq<char>, Set<u32>>, JsonFailure>(
                                JsonFailure::Repeated(nm@),
                            ),
                            _ => true,
                        });
                    }
                    return Err(e);
                },
            }
        } else {
            proof {
                assert(spec_decode_lines(lines_of(rest@), acc) == spec_decode_lines(
                    lines_of(rest@).drop_first(),
                    index@,
                ));
            }
        }
        if k >= rest.len() {
            proof {
                assert(lines_of(rest@).drop_first() =~= Seq::<Seq<u8>>::empty());
                assert(data@.skip(n as int) =~= Seq::<u8>::empty());
            }
            start = n;
        } else {
            proof {
                assert(lines_of(rest@).drop_first() =~= lines_of(rest@.skip(k as int + 1)));
                assert(rest@.skip(k as int + 1) =~= data@.skip(start as int + k as int + 1));
            }
            start = start + k + 1;
        }
    }
    proof {
        assert(data@.skip(n as int) =~= Seq::<u8>::empty());
        assert(lines_of(Seq::<u8>::empty()) =~= Seq::<Seq<u8>>::empty());
    }
    Ok(index)
}

/// Decode a binary container into an index.
fn decode_bin(data: &[u8]) -> (r: Result<Index, Error>)
    ensures
        match r {
            Ok(idx) => idx.wf() && spec_decode_bin(data@) == Ok::<
                Map<Seq<char>, Set<u32>>,
                BinFailure,
            >(idx@),
            Err(e) => match e {
                Error::Bincode => spec_decode_bin(data@) == Err::<
                    Map<Seq<char>, Set<u32>>,
                    BinFailure,
                >(BinFailure::NotAContainer),
                Error::DuplicateProperty(nm) => spec_decode_bin(data@) == Err::<
                    Map<Seq<char>, Set<u32>>,
                    BinFailure,
                >(BinFailure::Repeated(nm@)),
                Error::InvalidBitmap(nm) => spec_decode_bin(data@) == Err::<
                    Map<Seq<char>, Set<u32>>,
                    BinFailure,
                >(BinFailure::BadBitmap(nm@)),
                _ => false,
            },
        },
{
    let frames = match bincode_decode_pairs(data) {
        Some(v) => v,
        None => {
            return Err(Error::Bincode);
        },
    };
    let ghost pm = frame_views(frames@);
    let mut index = Index::new();
    proof {
        assert(pm.skip(0) =~= pm);
    }
    let n = frames.len();
    let mut i: usize = 0;
    while i < n
        invariant
            0 <= i <= n,
            n == frames@.len(),
            index.wf(),
            pm == frame_views(frames@),
            pm.len() == n,
            forall|j: int|
                0 <= j < n ==> (#[trigger] pm[j]).0 == frames@[j].0@ && pm[j].1
                    == frames@[j].1@,
            spec_decode_bin(data@) == spec_decode_bin_pairs(pm.skip(i as int), index@),
        decreases n - i,
    {
        proof {
            assert(pm.skip(i as int)[0] == pm[i as int]);
        }
        let name_ref = &frames[i].0;
        let already = match index.get_property(name_ref.as_str()) {
            Some(_) => true,
            None => false,
        };
        if already {
            return Err(Error::DuplicateProperty(frames[i].0.clone()));
        }
        match cis_try_deserialize(frames[i].1.as_slice()) {
            None => {
                return Err(Error::InvalidBitmap(frames[i].0.clone()));
            },
            Some(bm) => {
                index.set_property(frames[i].0.as_str(), bm);
            },
        }
        proof {
            assert(pm.skip(i as int).drop_first() =~= pm.skip(i as int + 1));
        }
        i = i + 1;
    }
    proof {
        assert(pm.skip(n as int) =~= Seq::<(Seq<char>, Seq<u8>)>::empty());
    }
    Ok(index)
}

} // verus!
