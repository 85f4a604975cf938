//! Backend configuration: the URL-like strings that choose where an index
//! is persisted.
//!
//! ```text
//! memory://                                      in-process only
//! fs://[host/]path[?format=bin|crible|json|ndjson|ljson]
//! file://...                                     same as fs://
//! redis://host[:port][/db][?prefix=<string>]    remote hash, one field per property
//! ```
//!
//! For a filesystem backend the encoder defaults from the path extension
//! and `format` overrides it; a missing path means `data.bin`.  For a
//! remote backend the query is stripped from the kept URL and `prefix`
//! names the hash key, `crible` by default.  Query values are taken
//! verbatim, without percent-decoding, and when a key repeats the last
//! value wins.

use vstd::prelude::*;

use crate::encoding::Encoder;
use crate::text::{str_eq, string_from_chars};

verus! {

/// Why a configuration string was refused.
#[derive(Debug, PartialEq, Eq, Clone)]
pub enum Error {
    /// The string has no `scheme://` head.
    NoScheme,
    /// The scheme names no known backend.
    UnknownScheme(String),
    /// The `format` parameter names no encoder.
    UnknownFormat(String),
}

/// A parsed backend choice.
#[derive(Debug, PartialEq, Eq, Clone)]
pub enum BackendOptions {
    /// Keep the index in process memory only.
    Memory,
    /// Persist to a file, in the given encoding.
    Fs { path: String, encoder: Encoder },
    /// Persist to a remote hash at `url` under the key `key`.
    Redis { url: String, key: String },
}

/// The first position at or after `i` where `://` stands, or the length.
pub open spec fn find_sep(s: Seq<char>, i: int) -> int
    decreases s.len() - i,
{
    if 0 <= i && i + 3 <= s.len() {
        if s[i] == ':' && s[i + 1] == '/' && s[i + 2] == '/' {
            i
        } else {
            find_sep(s, i + 1)
        }
    } else {
        s.len() as int
    }
}

/// The first position at or after `i` holding `c`, or the length.
pub open spec fn find_char(s: Seq<char>, i: int, c: char) -> int
    decreases s.len() - i,
{
    if 0 <= i < s.len() {
        if s[i] == c {
            i
        } else {
            find_char(s, i + 1, c)
        }
    } else {
        s.len() as int
    }
}

/// The value of the last `key=value` pair for `key` in the query `q`,
/// scanning pairs from `i`.
pub open spec fn param_from(q: Seq<char>, i: int, key: Seq<char>) -> Option<Seq<char>>
    decreases q.len() - i,
{
    if 0 <= i <= q.len() {
        let amp = find_char(q, i, '&');
        let eq = find_char(q, i, '=');
        let here: Option<Seq<char>> = if eq < amp && q.subrange(i, eq) == key {
            Some(q.subrange(eq + 1, amp))
        } else {
            None
        };
        if i <= amp < q.len() {
            match param_from(q, amp + 1, key) {
                Some(v) => Some(v),
                None => here,
            }
        } else {
            here
        }
    } else {
        None
    }
}

/// The extension of the path: what follows the last dot of the last
/// component, unless that dot starts the component.
pub open spec fn ext_of(path: Seq<char>) -> Option<Seq<char>> {
    let base = find_last(path, '/') + 1;
    let dot = find_last(path, '.');
    if base < dot < path.len() {
        Some(path.subrange(dot + 1, path.len() as int))
    } else {
        None
    }
}

/// The last position holding `c`, or `-1` when there is none.
pub open spec fn find_last(s: Seq<char>, c: char) -> int
    decreases s.len(),
{
    if s.len() == 0 {
        -1
    } else if s.last() == c {
        s.len() - 1
    } else {
        find_last(s.drop_last(), c)
    }
}

/// The encoder a label's characters name, if any: the spec-level reading of
/// `Encoder::parse_label`.
pub open spec fn label_encoder(f: Seq<char>) -> Option<Encoder> {
    if f == Seq::<char>::empty() || f == seq!['b', 'i', 'n'] || f == seq![
        'c',
        'r',
        'i',
        'b',
        'l',
        'e',
    ] {
        Some(Encoder::Bin)
    } else if f == seq!['j', 's', 'o', 'n'] || f == seq!['n', 'd', 'j', 's', 'o', 'n'] || f
        == seq!['l', 'j', 's', 'o', 'n'] {
        Some(Encoder::Json)
    } else {
        None
    }
}

/// The filesystem path a configuration denotes: the part before any query,
/// one trailing slash dropped, defaulting to `data.bin` when empty.
pub open spec fn fs_path_of(rest: Seq<char>) -> Seq<char> {
    let qp = find_char(rest, 0, '?');
    let raw = rest.subrange(0, qp);
    let trimmed = if raw.len() > 0 && raw.last() == '/' {
        raw.drop_last()
    } else {
        raw
    };
    if trimmed.len() == 0 {
        seq!['d', 'a', 't', 'a', '.', 'b', 'i', 'n']
    } else {
        trimmed
    }
}

/// The `format` parameter of a configuration's query, if a query and the
/// parameter are there.
pub open spec fn format_param_of(rest: Seq<char>) -> Option<Seq<char>> {
    let qp = find_char(rest, 0, '?');
    if qp < rest.len() {
        param_from(rest, qp + 1, seq!['f', 'o', 'r', 'm', 'a', 't'])
    } else {
        None
    }
}

/// The `prefix` parameter of a configuration's query, if a query and the
/// parameter are there.
pub open spec fn prefix_param_of(rest: Seq<char>) -> Option<Seq<char>> {
    let qp = find_char(rest, 0, '?');
    if qp < rest.len() {
        param_from(rest, qp + 1, seq!['p', 'r', 'e', 'f', 'i', 'x'])
    } else {
        None
    }
}

/// The encoder a filesystem configuration chooses: the `format` parameter
/// when given (and known), else the path extension, else the binary format.
pub open spec fn fs_encoder_of(rest: Seq<char>) -> Option<Encoder> {
    match format_param_of(rest) {
        Some(f) => label_encoder(f),
        None => match ext_of(fs_path_of(rest)) {
            Some(x) => match label_encoder(x) {
                Some(e) => Some(e),
                None => Some(Encoder::Bin),
            },
            None => Some(Encoder::Bin),
        },
    }
}

/// Wherever a separator is found, three characters fit after it.
proof fn lemma_find_sep(s: Seq<char>, i: int)
    requires
        0 <= i,
    ensures
        find_sep(s, i) < s.len() ==> find_sep(s, i) + 3 <= s.len(),
    decreases s.len() - i,
{
    if i + 3 <= s.len() && !(s[i] == ':' && s[i + 1] == '/' && s[i + 2] == '/') {
        lemma_find_sep(s, i + 1);
    }
}

/// Find `://` from `i`.
fn e_find_sep(s: &Vec<char>, i: usize) -> (r: usize)
    requires
        i <= s@.len(),
    ensures
        r as int == find_sep(s@, i as int),
        r <= s@.len(),
        r < s@.len() ==> r + 3 <= s@.len(),
{
    let n = s.len();
    let mut j = i;
    while n - j >= 3 && !(s[j] == ':' && s[j + 1] == '/' && s[j + 2] == '/')
        invariant
            i <= j,
            j <= n,
            n == s@.len(),
            find_sep(s@, i as int) == find_sep(s@, j as int),
        decreases n - j,
    {
        j = j + 1;
    }
    proof {
        lemma_find_sep(s@, i as int);
    }
    if n - j >= 3 {
        j
    } else {
        n
    }
}

/// Find `c` from `i`.
fn e_find_char(s: &Vec<char>, i: usize, c: char) -> (r: usize)
    requires
        i <= s@.len(),
    ensures
        r as int == find_char(s@, i as int, c),
        i <= r <= s@.len(),
{
    let n = s.len();
    let mut j = i;
    while j < n && s[j] != c
        invariant
            i <= j <= n,
            n == s@.len(),
            find_char(s@, i as int, c) == find_char(s@, j as int, c),
        decreases n - j,
    {
        j = j + 1;
    }
    if j < n {
        j
    } else {
        n
    }
}

/// The characters `s[a..b]`.
fn sub_chars(s: &Vec<char>, a: usize, b: usize) -> (r: Vec<char>)
    requires
        a <= b <= s@.len(),
    ensures
        r@ == s@.subrange(a as int, b as int),
{
    let mut out: Vec<char> = Vec::new();
    let mut k = a;
    while k < b
        invariant
            a <= k <= b <= s@.len(),
            out@.len() == k - a,
            forall|t: int| 0 <= t < out@.len() ==> out@[t] == s@[a + t],
        decreases b - k,
    {
        out.push(s[k]);
        k = k + 1;
    }
    proof {
        assert(out@ =~= s@.subrange(a as int, b as int));
    }
    out
}

/// The value of the last `key=value` pair for `key` in `q[i..]`.
fn e_param_from(q: &Vec<char>, i: usize, key: &str) -> (r: Option<Vec<char>>)
    requires
        i <= q@.len(),
    ensures
        match r {
            Some(v) => param_from(q@, i as int, key@) == Some(v@),
            None => param_from(q@, i as int, key@) is None,
        },
    decreases q@.len() - i,
{
    let amp = e_find_char(q, i, '&');
    let eq = e_find_char(q, i, '=');
    let here: Option<Vec<char>> = if eq < amp {
        let k = sub_chars(q, i, eq);
        let ks = string_from_chars(&k);
        if str_eq(ks.as_str(), key) {
            Some(sub_chars(q, eq + 1, amp))
        } else {
            None
        }
    } else {
        None
    };
    if amp < q.len() {
        match e_param_from(q, amp + 1, key) {
            Some(v) => Some(v),
            None => here,
        }
    } else {
        here
    }
}

/// The last position holding `c`, or none.
fn e_find_last(s: &Vec<char>, c: char) -> (r: Option<usize>)
    ensures
        match r {
            Some(j) => find_last(s@, c) == j as int && j < s@.len(),
            None => find_last(s@, c) == -1,
        },
{
    let n = s.len();
    proof {
        assert(s@.subrange(0, n as int) =~= s@);
    }
    let mut j = n;
    while j > 0
        invariant
            0 <= j <= n,
            n == s@.len(),
            find_last(s@, c) == find_last(s@.subrange(0, j as int), c),
        decreases j,
    {
        proof {
            assert(s@.subrange(0, j as int).last() == s@[j - 1]);
            assert(s@.subrange(0, j as int).drop_last() =~= s@.subrange(0, j as int - 1));
        }
        if s[j - 1] == c {
            return Some(j - 1);
        }
        j = j - 1;
    }
    proof {
        assert(s@.subrange(0, 0) =~= Seq::<char>::empty());
    }
    None
}

impl BackendOptions {
    /// Read a backend configuration string.
    pub fn from_config(s: &str) -> (r: Result<BackendOptions, Error>)
        ensures
            match r {
                Ok(b) => {
                    let sep = find_sep(s@, 0);
                    let scheme = s@.subrange(0, sep);
                    let rest = s@.subrange(sep + 3, s@.len() as int);
                    &&& sep < s@.len()
                    &&& match b {
                        BackendOptions::Memory => scheme == seq!['m', 'e', 'm', 'o', 'r', 'y'],
                        BackendOptions::Fs { path, encoder } => (scheme == seq!['f', 's']
                            || scheme == seq!['f', 'i', 'l', 'e']) && path@ == fs_path_of(rest)
                            && fs_encoder_of(rest) == Some(encoder),
                        BackendOptions::Redis { url, key } => scheme == seq![
                            'r',
                            'e',
                            'd',
                            'i',
                            's',
                        ] && url@ == seq!['r', 'e', 'd', 'i', 's'] + seq![':', '/', '/']
                            + rest.subrange(0, find_char(rest, 0, '?')) && key@ == (match
                        prefix_param_of(rest) {
                            Some(p) => p,
                            None => seq!['c', 'r', 'i', 'b', 'l', 'e'],
                        }),
                    }
                },
                Err(Error::NoScheme) => find_sep(s@, 0) >= s@.len(),
                Err(Error::UnknownScheme(x)) => {
                    let sep = find_sep(s@, 0);
                    let scheme = s@.subrange(0, sep);
                    &&& sep < s@.len()
                    &&& x@ == scheme
                    &&& scheme != seq!['m', 'e', 'm', 'o', 'r', 'y']
                    &&& scheme != seq!['f', 's']
                    &&& scheme != seq!['f', 'i', 'l', 'e']
                    &&& scheme != seq!['r', 'e', 'd', 'i', 's']
                },
                Err(Error::UnknownFormat(x)) => {
                    let sep = find_sep(s@, 0);
                    let scheme = s@.subrange(0, sep);
                    let rest = s@.subrange(sep + 3, s@.len() as int);
                    &&& sep < s@.len()
                    &&& (scheme == seq!['f', 's'] || scheme == seq!['f', 'i', 'l', 'e'])
                    &&& format_param_of(rest) == Some(x@)
                    &&& label_encoder(x@) is None
                },
            },
    {
        let n = s.unicode_len();
        let mut cs: Vec<char> = Vec::new();
        let mut i: usize = 0;
        while i < n
            invariant
                0 <= i <= n,
                n == s@.len(),
                cs@.len() == i,
                forall|j: int| 0 <= j < i ==> cs@[j] == s@[j],
            decreases n - i,
        {
            cs.push(s.get_char(i));
            i = i + 1;
        }
        proof {
            assert(cs@ =~= s@);
        }
        let sep = e_find_sep(&cs, 0);
        if sep >= n {
            return Err(Error::NoScheme);
        }
        let scheme_chars = sub_chars(&cs, 0, sep);
        let scheme = string_from_chars(&scheme_chars);
        let rest_chars = sub_chars(&cs, sep + 3, n);
        let ghost rest = rest_chars@;
        if str_eq(scheme.as_str(), "memory") {
            proof {
                reveal_strlit("memory");
                assert("memory"@ =~= seq!['m', 'e', 'm', 'o', 'r', 'y']);
            }
            Ok(BackendOptions::Memory)
        } else if str_eq(scheme.as_str(), "fs") || str_eq(scheme.as_str(), "file") {
            proof {
                reveal_strlit("fs");
                reveal_strlit("file");
                assert("fs"@ =~= seq!['f', 's']);
                assert("file"@ =~= seq!['f', 'i', 'l', 'e']);
            }
            let qp = e_find_char(&rest_chars, 0, '?');
            let raw_end = if qp > 0 && rest_chars[qp - 1] == '/' {
                qp - 1
            } else {
                qp
            };
            let trimmed = sub_chars(&rest_chars, 0, raw_end);
            proof {
                let raw = rest.subrange(0, find_char(rest, 0, '?'));
                if raw.len() > 0 && raw.last() == '/' {
                    assert(trimmed@ =~= raw.drop_last());
                } else {
                    assert(trimmed@ =~= raw);
                }
            }
            let path = if trimmed.len() == 0 {
                let p = String::from_str("data.bin");
                proof {
                    reveal_strlit("data.bin");
                    assert(p@ =~= seq!['d', 'a', 't', 'a', '.', 'b', 'i', 'n']);
                }
                p
            } else {
                string_from_chars(&trimmed)
            };
            let format = if qp < rest_chars.len() {
                e_param_from(&rest_chars, qp + 1, "format")
            } else {
                None
            };
            proof {
                reveal_strlit("format");
                assert("format"@ =~= seq!['f', 'o', 'r', 'm', 'a', 't']);
            }
            let encoder = match format {
                Some(f) => {
                    let label = string_from_chars(&f);
                    match crate::encoding::Encoder::parse_label(label.as_str()) {
                        Ok(e) => {
                            proof {
                                lemma_label_literals();
                            }
                            e
                        },
                        Err(_) => {
                            proof {
                                lemma_label_literals();
                            }
                            return Err(Error::UnknownFormat(label));
                        },
                    }
                },
                None => {
                    let pcs = trimmed_or_default_chars(&path);
                    let base = match e_find_last(&pcs, '/') {
                        Some(b) => b + 1,
                        None => 0,
                    };
                    let chosen = match e_find_last(&pcs, '.') {
                        Some(d) => {
                            if d > base {
                                let x = sub_chars(&pcs, d + 1, pcs.len());
                                let label = string_from_chars(&x);
                                match crate::encoding::Encoder::parse_label(label.as_str()) {
                                    Ok(e) => e,
                                    Err(_) => Encoder::Bin,
                                }
                            } else {
                                Encoder::Bin
                            }
                        },
                        None => Encoder::Bin,
                    };
                    proof {
                        lemma_label_literals();
                    }
                    chosen
                },
            };
            Ok(BackendOptions::Fs { path, encoder })
        } else if str_eq(scheme.as_str(), "redis") {
            proof {
                reveal_strlit("redis");
                assert("redis"@ =~= seq!['r', 'e', 'd', 'i', 's']);
            }
            let qp = e_find_char(&rest_chars, 0, '?');
            let mut url_chars: Vec<char> = Vec::new();
            url_chars.push('r');
            url_chars.push('e');
            url_chars.push('d');
            url_chars.push('i');
            url_chars.push('s');
            url_chars.push(':');
            url_chars.push('/');
            url_chars.push('/');
            let mut body = sub_chars(&rest_chars, 0, qp);
            let ghost uc = url_chars@;
            let ghost bc = body@;
            url_chars.append(&mut body);
            proof {
                assert(uc =~= seq!['r', 'e', 'd', 'i', 's'] + seq![':', '/', '/']);
                assert(url_chars@ == uc + bc);
            }
            let url = string_from_chars(&url_chars);
            let key = if qp < rest_chars.len() {
                match e_param_from(&rest_chars, qp + 1, "prefix") {
                    Some(p) => string_from_chars(&p),
                    None => default_prefix(),
                }
            } else {
                default_prefix()
            };
            proof {
                reveal_strlit("prefix");
                assert("prefix"@ =~= seq!['p', 'r', 'e', 'f', 'i', 'x']);
            }
            Ok(BackendOptions::Redis { url, key })
        } else {
            proof {
                reveal_strlit("memory");
                reveal_strlit("fs");
                reveal_strlit("file");
                reveal_strlit("redis");
                assert("memory"@ =~= seq!['m', 'e', 'm', 'o', 'r', 'y']);
                assert("fs"@ =~= seq!['f', 's']);
                assert("file"@ =~= seq!['f', 'i', 'l', 'e']);
                assert("redis"@ =~= seq!['r', 'e', 'd', 'i', 's']);
            }
            Err(Error::UnknownScheme(scheme))
        }
    }
}

/// The default hash key of a remote backend.
fn default_prefix() -> (r: String)
    ensures
        r@ == seq!['c', 'r', 'i', 'b', 'l', 'e'],
{
    let p = String::from_str("crible");
    proof {
        reveal_strlit("crible");
        assert(p@ =~= seq!['c', 'r', 'i', 'b', 'l', 'e']);
    }
    p
}

/// The characters of a path string.
fn trimmed_or_default_chars(path: &String) -> (r: Vec<char>)
    ensures
        r@ == path@,
{
    let s = path.as_str();
    let n = s.unicode_len();
    let mut cs: Vec<char> = Vec::new();
    let mut i: usize = 0;
    while i < n
        invariant
            0 <= i <= n,
            n == s@.len(),
            cs@.len() == i,
            forall|j: int| 0 <= j < i ==> cs@[j] == s@[j],
        decreases n - i,
    {
        cs.push(s.get_char(i));
        i = i + 1;
    }
    proof {
        assert(cs@ =~= s@);
    }
    cs
}

/// The labels of `Encoder::parse_label`, spelled out as character
/// sequences.
proof fn lemma_label_literals()
    ensures
        "bin"@ == seq!['b', 'i', 'n'],
        "crible"@ == seq!['c', 'r', 'i', 'b', 'l', 'e'],
        "json"@ == seq!['j', 's', 'o', 'n'],
        "ndjson"@ == seq!['n', 'd', 'j', 's', 'o', 'n'],
        "ljson"@ == seq!['l', 'j', 's', 'o', 'n'],
{
    reveal_strlit("bin");
    reveal_strlit("crible");
    reveal_strlit("json");
    reveal_strlit("ndjson");
    reveal_strlit("ljson");
    assert("bin"@ =~= seq!['b', 'i', 'n']);
    assert("crible"@ =~= seq!['c', 'r', 'i', 'b', 'l', 'e']);
    assert("json"@ =~= seq!['j', 's', 'o', 'n']);
    assert("ndjson"@ =~= seq!['n', 'd', 'j', 's', 'o', 'n']);
    assert("ljson"@ =~= seq!['l', 'j', 's', 'o', 'n']);
}

} // verus!
