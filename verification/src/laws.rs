//! Algebraic laws of the evaluator: the boolean-algebra identities that
//! queries over an index obey, stated over the evaluator's meaning function
//! and proved for every index model.

use vstd::prelude::*;

use crate::cis::{cis_from_bytes, cis_set, union_of_sets, xor_of_sets};
use crate::encoding::{
    bin_model_of, is_ascending_enum, pairs_model_of, spec_decode_bin_pairs, BinFailure,
};
use crate::expression::{
    char_eq_nocase, is_alpha_char, is_keyword, is_space_char, is_valid_name, is_word_char,
    spec_serialize, word_is, SpecExpr,
};
use crate::index::{
    and_fold, entries_map, entries_sorted, eval, eval_all, lemma_map_at, lemma_map_dom,
    lemma_sorted_unique, root_set, sub_fold, unique_names,
};
use crate::ndjson::{
    doc_chars, lemma_doc_unfold_front, lemma_first_nl_run, lemma_parse_print_line,
    lemma_tame_line, line_chars, lines_of, spec_decode, spec_decode_lines, tame_chars,
    JsonFailure,
};
use crate::parser::{
    match_nocase_at, skip_ws, spec_chain, spec_expression, spec_not_prefix, spec_op_alt,
    spec_rep, spec_subexpr, spec_term, word_end, SpecChain, SpecParse,
};

verus! {

/// Every set an expression evaluates to lies inside the root set.
pub proof fn lemma_eval_in_root(m: Map<Seq<char>, Set<u32>>, e: SpecExpr)
    ensures
        eval(m, e) matches Ok(s) ==> s.subset_of(root_set(m)),
    decreases e,
{
    match e {
        SpecExpr::Root => {
        },
        SpecExpr::Property(n) => {
            if m.dom().contains(n) {
                assert forall|x: u32| m[n].contains(x) implies root_set(m).contains(x) by {
                    assert(m.dom().contains(n) && m[n].contains(x));
                }
            }
        },
        SpecExpr::And(cs) => {
            if let Ok(sets) = eval_all(m, cs) {
                lemma_eval_all_in_root(m, cs);
                if sets.len() > 0 {
                    lemma_and_fold_in_first(sets);
                }
            }
        },
        SpecExpr::Sub(cs) => {
            if let Ok(sets) = eval_all(m, cs) {
                lemma_eval_all_in_root(m, cs);
                if sets.len() > 0 {
                    lemma_sub_fold_in_first(sets);
                }
            }
        },
        SpecExpr::Or(cs) => {
            if let Ok(sets) = eval_all(m, cs) {
                lemma_eval_all_in_root(m, cs);
                lemma_union_in_root(sets, root_set(m));
            }
        },
        SpecExpr::Xor(cs) => {
            if let Ok(sets) = eval_all(m, cs) {
                lemma_eval_all_in_root(m, cs);
                lemma_xor_in_root(sets, root_set(m));
            }
        },
        SpecExpr::Not(b) => {
            lemma_eval_in_root(m, *b);
        },
    }
}

/// Every set a sequence of children evaluates to lies inside the root set.
pub proof fn lemma_eval_all_in_root(m: Map<Seq<char>, Set<u32>>, cs: Seq<SpecExpr>)
    ensures
        eval_all(m, cs) matches Ok(sets) ==> sets.len() == cs.len() && (forall|i: int|
            0 <= i < sets.len() ==> (#[trigger] sets[i]).subset_of(root_set(m))),
    decreases cs,
{
    if cs.len() > 0 {
        lemma_eval_in_root(m, cs[0]);
        lemma_eval_all_in_root(m, cs.drop_first());
        if let Ok(sets) = eval_all(m, cs) {
            let rest = match eval_all(m, cs.drop_first()) {
                Ok(r) => r,
                Err(_) => Seq::<Set<u32>>::empty(),
            };
            assert forall|i: int| 0 <= i < sets.len() implies (#[trigger] sets[i]).subset_of(
                root_set(m),
            ) by {
                if i > 0 {
                    assert(sets[i] == rest[i - 1]);
                }
            }
        }
    }
}

/// A fold of intersections stays inside the first set.
pub proof fn lemma_and_fold_in_first(sets: Seq<Set<u32>>)
    requires
        sets.len() >= 1,
    ensures
        and_fold(sets).subset_of(sets[0]),
    decreases sets.len(),
{
    if sets.len() > 1 {
        lemma_and_fold_in_first(sets.drop_last());
        assert(sets.drop_last()[0] == sets[0]);
    }
}

/// A fold of differences stays inside the first set.
pub proof fn lemma_sub_fold_in_first(sets: Seq<Set<u32>>)
    requires
        sets.len() >= 1,
    ensures
        sub_fold(sets).subset_of(sets[0]),
    decreases sets.len(),
{
    if sets.len() > 1 {
        lemma_sub_fold_in_first(sets.drop_last());
        assert(sets.drop_last()[0] == sets[0]);
    }
}

/// A fold of unions of subsets of `u` stays inside `u`.
pub proof fn lemma_union_in_root(sets: Seq<Set<u32>>, u: Set<u32>)
    requires
        forall|i: int| 0 <= i < sets.len() ==> (#[trigger] sets[i]).subset_of(u),
    ensures
        union_of_sets(sets).subset_of(u),
    decreases sets.len(),
{
    if sets.len() > 0 {
        lemma_union_in_root(sets.drop_last(), u);
        assert(sets[sets.len() - 1].subset_of(u));
    }
}

/// A fold of symmetric differences of subsets of `u` stays inside `u`.
pub proof fn lemma_xor_in_root(sets: Seq<Set<u32>>, u: Set<u32>)
    requires
        forall|i: int| 0 <= i < sets.len() ==> (#[trigger] sets[i]).subset_of(u),
    ensures
        xor_of_sets(sets).subset_of(u),
    decreases sets.len(),
{
    if sets.len() > 0 {
        lemma_xor_in_root(sets.drop_last(), u);
        assert(sets[sets.len() - 1].subset_of(u));
    }
}

/// `a AND a` evaluates to what `a` evaluates to.
pub proof fn lemma_and_idempotent(m: Map<Seq<char>, Set<u32>>, a: SpecExpr)
    requires
        eval(m, a) is Ok,
    ensures
        eval(m, SpecExpr::And(seq![a, a])) == eval(m, a),
{
    let s = eval(m, a)->Ok_0;
    lemma_pair_eval(m, a, a);
    assert(and_fold(seq![s, s]) =~= s) by {
        assert(seq![s, s].drop_last() =~= seq![s]);
        assert(and_fold(seq![s]) == s);
        assert(seq![s, s].last() == s);
    }
}

/// `a OR a` evaluates to what `a` evaluates to.
pub proof fn lemma_or_idempotent(m: Map<Seq<char>, Set<u32>>, a: SpecExpr)
    requires
        eval(m, a) is Ok,
    ensures
        eval(m, SpecExpr::Or(seq![a, a])) == eval(m, a),
{
    let s = eval(m, a)->Ok_0;
    lemma_pair_eval(m, a, a);
    assert(union_of_sets(seq![s, s]) =~= s) by {
        assert(seq![s, s].drop_last() =~= seq![s]);
        assert(seq![s].drop_last() =~= Seq::<Set<u32>>::empty());
        assert(union_of_sets(Seq::<Set<u32>>::empty()) == Set::<u32>::empty());
        assert(union_of_sets(seq![s]) =~= s);
        assert(seq![s, s].last() == s);
    }
}

/// `a XOR a` evaluates to the empty set.
pub proof fn lemma_xor_self_empty(m: Map<Seq<char>, Set<u32>>, a: SpecExpr)
    requires
        eval(m, a) is Ok,
    ensures
        eval(m, SpecExpr::Xor(seq![a, a])) == Ok::<Set<u32>, Seq<char>>(Set::<u32>::empty()),
{
    let s = eval(m, a)->Ok_0;
    lemma_pair_eval(m, a, a);
    assert(xor_of_sets(seq![s, s]) =~= Set::<u32>::empty()) by {
        assert(seq![s, s].drop_last() =~= seq![s]);
        assert(seq![s].drop_last() =~= Seq::<Set<u32>>::empty());
        assert(xor_of_sets(Seq::<Set<u32>>::empty()) == Set::<u32>::empty());
        assert(xor_of_sets(seq![s]) =~= s);
        assert(seq![s, s].last() == s);
    }
}

/// `a - a` evaluates to the empty set.
pub proof fn lemma_sub_self_empty(m: Map<Seq<char>, Set<u32>>, a: SpecExpr)
    requires
        eval(m, a) is Ok,
    ensures
        eval(m, SpecExpr::Sub(seq![a, a])) == Ok::<Set<u32>, Seq<char>>(Set::<u32>::empty()),
{
    let s = eval(m, a)->Ok_0;
    lemma_pair_eval(m, a, a);
    assert(sub_fold(seq![s, s]) =~= Set::<u32>::empty()) by {
        assert(seq![s, s].drop_last() =~= seq![s]);
        assert(sub_fold(seq![s]) == s);
        assert(seq![s, s].last() == s);
    }
}

/// `NOT NOT a` evaluates to what `a` evaluates to: the double complement
/// within the root universe returns the original set, which always lies
/// inside that universe.
pub proof fn lemma_not_not(m: Map<Seq<char>, Set<u32>>, a: SpecExpr)
    requires
        eval(m, a) is Ok,
    ensures
        eval(m, SpecExpr::Not(Box::new(SpecExpr::Not(Box::new(a))))) == eval(m, a),
{
    let s = eval(m, a)->Ok_0;
    lemma_eval_in_root(m, a);
    assert(eval(m, SpecExpr::Not(Box::new(a))) == Ok::<Set<u32>, Seq<char>>(
        root_set(m).difference(s),
    ));
    assert(root_set(m).difference(root_set(m).difference(s)) =~= s);
}

/// De Morgan: `NOT (a AND b)` evaluates to `(NOT a) OR (NOT b)` within the
/// current root.
pub proof fn lemma_de_morgan(m: Map<Seq<char>, Set<u32>>, a: SpecExpr, b: SpecExpr)
    requires
        eval(m, a) is Ok,
        eval(m, b) is Ok,
    ensures
        eval(m, SpecExpr::Not(Box::new(SpecExpr::And(seq![a, b])))) == eval(
            m,
            SpecExpr::Or(
                seq![
                    SpecExpr::Not(Box::new(a)),
                    SpecExpr::Not(Box::new(b)),
                ],
            ),
        ),
{
    let sa = eval(m, a)->Ok_0;
    let sb = eval(m, b)->Ok_0;
    let root = root_set(m);
    lemma_pair_eval(m, a, b);
    let na = SpecExpr::Not(Box::new(a));
    let nb = SpecExpr::Not(Box::new(b));
    lemma_pair_eval(m, na, nb);
    assert(and_fold(seq![sa, sb]) =~= sa.intersect(sb)) by {
        assert(seq![sa, sb].drop_last() =~= seq![sa]);
        assert(and_fold(seq![sa]) == sa);
        assert(seq![sa, sb].last() == sb);
    }
    assert(eval(m, na) == Ok::<Set<u32>, Seq<char>>(root.difference(sa)));
    assert(eval(m, nb) == Ok::<Set<u32>, Seq<char>>(root.difference(sb)));
    assert(union_of_sets(seq![root.difference(sa), root.difference(sb)]) =~= root.difference(
        sa.intersect(sb),
    )) by {
        assert(seq![root.difference(sa), root.difference(sb)].drop_last() =~= seq![
            root.difference(sa),
        ]);
        assert(seq![root.difference(sa)].drop_last() =~= Seq::<Set<u32>>::empty());
        assert(union_of_sets(Seq::<Set<u32>>::empty()) == Set::<u32>::empty());
        assert(union_of_sets(seq![root.difference(sa)]) =~= root.difference(sa));
        assert(seq![root.difference(sa), root.difference(sb)].last() == root.difference(sb));
    }
    assert(eval(m, SpecExpr::And(seq![a, b])) == Ok::<Set<u32>, Seq<char>>(sa.intersect(sb)));
    assert(eval(m, SpecExpr::Not(Box::new(SpecExpr::And(seq![a, b])))) == Ok::<
        Set<u32>,
        Seq<char>,
    >(root.difference(sa.intersect(sb))));
    assert(eval(m, SpecExpr::Or(seq![na, nb])) == Ok::<Set<u32>, Seq<char>>(
        union_of_sets(seq![root.difference(sa), root.difference(sb)]),
    ));
}


/// Folding framed pairs of distinct, fresh names onto an accumulator
/// succeeds and adds exactly the entries' map.
proof fn lemma_bin_fold(
    s: Seq<(String, croaring::Bitmap)>,
    pm: Seq<(Seq<char>, Seq<u8>)>,
    acc: Map<Seq<char>, Set<u32>>,
)
    requires
        unique_names(s),
        bin_model_of(s, pm),
        forall|i: int| 0 <= i < s.len() ==> !acc.dom().contains((#[trigger] s[i]).0@),
    ensures
        spec_decode_bin_pairs(pm, acc) == Ok::<Map<Seq<char>, Set<u32>>, BinFailure>(
            acc.union_prefer_right(entries_map(s)),
        ),
    decreases s.len(),
{
    lemma_map_dom(s);
    if s.len() == 0 {
        assert(acc.union_prefer_right(entries_map(s)) =~= acc);
    } else {
        let name0 = s[0].0@;
        let set0 = cis_set(s[0].1);
        assert(pm[0].0 == name0 && cis_from_bytes(pm[0].1) == Some(set0));
        assert(!acc.dom().contains(name0));
        let acc2 = acc.insert(name0, set0);
        let t = s.drop_first();
        let qm = pm.drop_first();
        assert(forall|a: int, b: int|
            0 <= a < b < t.len() ==> (#[trigger] t[a]).0@ != (#[trigger] t[b]).0@);
        assert(bin_model_of(t, qm)) by {
            assert forall|i: int| 0 <= i < t.len() implies (#[trigger] qm[i]).0 == t[i].0@
                && cis_from_bytes(qm[i].1) == Some(cis_set(t[i].1)) by {
                assert(qm[i] == pm[i + 1] && t[i] == s[i + 1]);
            }
        }
        assert forall|i: int| 0 <= i < t.len() implies !acc2.dom().contains(
            (#[trigger] t[i]).0@,
        ) by {
            assert(t[i] == s[i + 1]);
            assert(s[i + 1].0@ != name0);
        }
        lemma_bin_fold(t, qm, acc2);
        lemma_map_dom(t);
        assert(acc2.union_prefer_right(entries_map(t)) =~= acc.union_prefer_right(
            entries_map(s),
        )) by {
            assert forall|k: Seq<char>|
                entries_map(s).dom().contains(k) implies k == name0 || entries_map(
                t,
            ).dom().contains(k) by {
                let i = choose|i: int| 0 <= i < s.len() && (#[trigger] s[i].0@) == k;
                if i > 0 {
                    assert(t[i - 1].0@ == k);
                }
            }
            assert forall|k: Seq<char>| entries_map(t).dom().contains(k) implies entries_map(
                s,
            ).dom().contains(k) && k != name0 by {
                let i = choose|i: int| 0 <= i < t.len() && (#[trigger] t[i].0@) == k;
                assert(s[i + 1].0@ == k);
            }
            assert(entries_map(s).dom().contains(name0));
            lemma_map_at(s, 0);
            assert forall|k: Seq<char>|
                entries_map(t).dom().contains(k) implies entries_map(t)[k] == entries_map(
                s,
            )[k] by {
                let i = choose|i: int| 0 <= i < t.len() && (#[trigger] t[i].0@) == k;
                lemma_map_at(t, i);
                assert(s[i + 1].0@ == k);
                lemma_map_at(s, i + 1);
            }
        }
    }
}

/// The binary codec's round trip: a container whose pairs frame the entries
/// of a well-formed index decodes back to exactly that index's map.  With
/// `Encoder::encode`'s guarantee that the produced bytes frame the entries,
/// and `Encoder::decode`'s guarantee that it computes this fold, decoding
/// what was encoded returns the index unchanged.
pub proof fn lemma_bin_round_trip(s: Seq<(String, croaring::Bitmap)>, pm: Seq<(Seq<char>, Seq<u8>)>)
    requires
        entries_sorted(s),
        bin_model_of(s, pm),
    ensures
        spec_decode_bin_pairs(pm, Map::<Seq<char>, Set<u32>>::empty()) == Ok::<
            Map<Seq<char>, Set<u32>>,
            BinFailure,
        >(entries_map(s)),
{
    lemma_sorted_unique(s);
    lemma_bin_fold(s, pm, Map::<Seq<char>, Set<u32>>::empty());
    assert(Map::<Seq<char>, Set<u32>>::empty().union_prefer_right(entries_map(s))
        =~= entries_map(s));
}


/// The concatenation of ASCII character sequences is ASCII.
proof fn lemma_ascii_concat(a: Seq<char>, b: Seq<char>)
    requires
        vstd::utf8::is_ascii_chars(a),
        vstd::utf8::is_ascii_chars(b),
    ensures
        vstd::utf8::is_ascii_chars(a + b),
{
    assert forall|i: int| 0 <= i < (a + b).len() implies '\0' <= #[trigger] (a + b)[i]
        <= '\u{7f}' by {
        if i < a.len() {
            assert((a + b)[i] == a[i]);
        } else {
            assert((a + b)[i] == b[i - a.len()]);
        }
    }
}

/// A printed document over valid names is ASCII.
proof fn lemma_doc_ascii(pm: Seq<(Seq<char>, Seq<u32>)>)
    requires
        forall|i: int| 0 <= i < pm.len() ==> is_valid_name((#[trigger] pm[i]).0),
    ensures
        vstd::utf8::is_ascii_chars(doc_chars(pm)),
    decreases pm.len(),
{
    if pm.len() > 0 {
        lemma_doc_ascii(pm.drop_last());
        assert(is_valid_name(pm.last().0)) by {
            assert(pm[pm.len() - 1].0 == pm.last().0);
        }
        lemma_tame_line(pm.last().0, pm.last().1);
        assert(vstd::utf8::is_ascii_chars(seq!['\n'])) by {
            assert(seq!['\n'][0] == '\n');
        }
        lemma_ascii_concat(doc_chars(pm.drop_last()), line_chars(pm.last().0, pm.last().1));
        lemma_ascii_concat(
            doc_chars(pm.drop_last()) + line_chars(pm.last().0, pm.last().1),
            seq!['\n'],
        );
    }
}

/// Inserting the first entry's pair into the accumulator and folding the
/// rest covers the whole entry map.
proof fn lemma_map_cons(s: Seq<(String, croaring::Bitmap)>, acc: Map<Seq<char>, Set<u32>>)
    requires
        unique_names(s),
        s.len() > 0,
        !acc.dom().contains(s[0].0@),
    ensures
        acc.insert(s[0].0@, cis_set(s[0].1)).union_prefer_right(entries_map(s.drop_first()))
            =~= acc.union_prefer_right(entries_map(s)),
{
    let name0 = s[0].0@;
    let t = s.drop_first();
    lemma_map_dom(s);
    lemma_map_dom(t);
    assert forall|k: Seq<char>|
        entries_map(s).dom().contains(k) implies k == name0 || entries_map(t).dom().contains(
        k,
    ) by {
        let i = choose|i: int| 0 <= i < s.len() && (#[trigger] s[i].0@) == k;
        if i > 0 {
            assert(t[i - 1].0@ == k);
        }
    }
    assert forall|k: Seq<char>| entries_map(t).dom().contains(k) implies entries_map(
        s,
    ).dom().contains(k) && k != name0 by {
        let i = choose|i: int| 0 <= i < t.len() && (#[trigger] t[i].0@) == k;
        assert(s[i + 1].0@ == k);
    }
    assert(entries_map(s).dom().contains(name0));
    lemma_map_at(s, 0);
    assert forall|k: Seq<char>| entries_map(t).dom().contains(k) implies entries_map(t)[k]
        == entries_map(s)[k] by {
        let i = choose|i: int| 0 <= i < t.len() && (#[trigger] t[i].0@) == k;
        lemma_map_at(t, i);
        assert(s[i + 1].0@ == k);
        lemma_map_at(s, i + 1);
    }
}

/// Folding the printed lines of an index's records onto an accumulator of
/// fresh names succeeds and adds exactly the entries' map.
#[verifier::rlimit(100)]
#[verifier::spinoff_prover]
proof fn lemma_json_fold(
    bytes: Seq<u8>,
    s: Seq<(String, croaring::Bitmap)>,
    pm: Seq<(Seq<char>, Seq<u32>)>,
    acc: Map<Seq<char>, Set<u32>>,
)
    requires
        unique_names(s),
        pairs_model_of(s, pm),
        forall|i: int| 0 <= i < s.len() ==> is_valid_name((#[trigger] s[i]).0@),
        forall|i: int| 0 <= i < s.len() ==> !acc.dom().contains((#[trigger] s[i]).0@),
        bytes.len() == doc_chars(pm).len(),
        forall|k: int| 0 <= k < bytes.len() ==> bytes[k] == (#[trigger] doc_chars(pm)[k]) as u8,
    ensures
        spec_decode_lines(lines_of(bytes), acc) == Ok::<Map<Seq<char>, Set<u32>>, JsonFailure>(
            acc.union_prefer_right(entries_map(s)),
        ),
    decreases s.len(),
{
    if s.len() == 0 {
        assert(bytes =~= Seq::<u8>::empty());
        assert(lines_of(bytes) =~= Seq::<Seq<u8>>::empty());
        assert(acc.union_prefer_right(entries_map(s)) =~= acc);
    } else {
        let name0 = pm[0].0;
        let vals0 = pm[0].1;
        assert(name0 == s[0].0@ && is_ascending_enum(vals0, cis_set(s[0].1)));
        assert(is_valid_name(name0));
        lemma_doc_unfold_front(pm);
        let l0 = line_chars(name0, vals0);
        let ll = l0.len() as int;
        lemma_tame_line(name0, vals0);
        assert(bytes.len() == ll + 1 + doc_chars(pm.drop_first()).len());
        // the first line's bytes, its terminating newline, and the rest
        assert(forall|k: int| 0 <= k < ll ==> doc_chars(pm)[k] == (#[trigger] l0[k]));
        assert(doc_chars(pm)[ll] == '\n');
        assert(bytes[ll] == 0x0A) by {
            assert(('\n' as u8) == 0x0A);
        }
        assert forall|k: int| 0 <= k < ll implies (#[trigger] bytes[k]) != 0x0A by {
            assert(bytes[k] == l0[k] as u8);
            assert(tame_chars(l0));
            assert(l0[k] != '\n' && '\0' <= l0[k] <= '\u{7f}');
            crate::text::lemma_char_code_injective(l0[k], '\n');
            crate::text::lemma_ascii_char_to_byte(l0[k]);
        }
        lemma_first_nl_run(bytes, 0, ll);
        let raw = bytes.subrange(0, ll);
        assert(raw.last() == l0[ll - 1] as u8);
        assert(l0[ll - 1] == '}');
        assert(raw.last() == 0x7D) by {
            assert(('}' as u8) == 0x7D);
        }
        assert(lines_of(bytes) == seq![raw] + lines_of(bytes.skip(ll + 1)));
        assert(lines_of(bytes)[0] == raw && lines_of(bytes).len() >= 1);
        assert(raw.len() == ll > 0);
        assert(forall|k: int| 0 <= k < raw.len() ==> raw[k] == (#[trigger] l0[k]) as u8);
        lemma_parse_print_line(raw, name0, vals0);
        // the record applies: a valid, fresh name with its value set
        assert(!acc.dom().contains(name0));
        let set0 = cis_set(s[0].1);
        assert(vals0.to_set() =~= set0) by {
            assert(forall|x: u32| vals0.to_set().contains(x) <==> vals0.contains(x));
        }
        let acc2 = acc.insert(name0, set0);
        assert(spec_decode_lines(lines_of(bytes), acc) == spec_decode_lines(
            lines_of(bytes).drop_first(),
            acc2,
        ));
        assert(lines_of(bytes).drop_first() =~= lines_of(bytes.skip(ll + 1)));
        let t = s.drop_first();
        let qm = pm.drop_first();
        let rest = bytes.skip(ll + 1);
        assert(forall|a: int, b: int|
            0 <= a < b < t.len() ==> (#[trigger] t[a]).0@ != (#[trigger] t[b]).0@);
        assert(pairs_model_of(t, qm)) by {
            assert forall|i: int| 0 <= i < t.len() implies (#[trigger] qm[i]).0 == t[i].0@
                && is_ascending_enum(qm[i].1, cis_set(t[i].1)) by {
                assert(qm[i] == pm[i + 1] && t[i] == s[i + 1]);
            }
        }
        assert(forall|i: int| 0 <= i < t.len() ==> is_valid_name((#[trigger] t[i]).0@)) by {
            assert(forall|i: int| 0 <= i < t.len() ==> (#[trigger] t[i]) == s[i + 1]);
        }
        assert forall|i: int| 0 <= i < t.len() implies !acc2.dom().contains(
            (#[trigger] t[i]).0@,
        ) by {
            assert(t[i] == s[i + 1]);
            assert(s[i + 1].0@ != name0);
        }
        assert(rest.len() == doc_chars(qm).len());
        assert forall|k: int| 0 <= k < rest.len() implies rest[k] == (#[trigger] doc_chars(
            qm,
        )[k]) as u8 by {
            assert(doc_chars(pm)[ll + 1 + k] == doc_chars(qm)[k]);
            assert(bytes[ll + 1 + k] == doc_chars(pm)[ll + 1 + k] as u8);
        }
        lemma_json_fold(rest, t, qm, acc2);
        lemma_map_cons(s, acc);
    }
}

/// The json-lines codec's round trip: the printed records of a well-formed
/// index whose property names the grammar accepts decode back to exactly
/// that index's map.  With `Encoder::encode`'s guarantee that the produced
/// bytes are the UTF-8 of such records, and `Encoder::decode`'s guarantee
/// that it computes this fold, decoding what was encoded returns the index
/// unchanged.  An index holding a name the grammar rejects is the one
/// exception: its records print, but decoding them reports the bad name.
pub proof fn lemma_json_round_trip(s: Seq<(String, croaring::Bitmap)>, pm: Seq<(Seq<char>, Seq<u32>)>)
    requires
        entries_sorted(s),
        pairs_model_of(s, pm),
        forall|i: int| 0 <= i < s.len() ==> is_valid_name((#[trigger] s[i]).0@),
    ensures
        spec_decode(vstd::utf8::encode_utf8(doc_chars(pm))) == Ok::<
            Map<Seq<char>, Set<u32>>,
            JsonFailure,
        >(entries_map(s)),
{
    lemma_sorted_unique(s);
    assert(forall|i: int| 0 <= i < pm.len() ==> is_valid_name((#[trigger] pm[i]).0)) by {
        assert(forall|i: int| 0 <= i < pm.len() ==> (#[trigger] pm[i]).0 == s[i].0@);
    }
    lemma_doc_ascii(pm);
    vstd::utf8::is_ascii_chars_encode_utf8(doc_chars(pm));
    let bytes = vstd::utf8::encode_utf8(doc_chars(pm));
    lemma_json_fold(bytes, s, pm, Map::<Seq<char>, Set<u32>>::empty());
    assert(Map::<Seq<char>, Set<u32>>::empty().union_prefer_right(entries_map(s))
        =~= entries_map(s));
}

/// Scanning a text of word characters runs to its end.
proof fn lemma_word_end_all_words(s: Seq<char>, i: int)
    requires
        0 <= i <= s.len(),
        forall|j: int| 0 <= j < s.len() ==> is_word_char(#[trigger] s[j]),
    ensures
        word_end(s, i) == s.len(),
    decreases s.len() - i,
{
    if i < s.len() {
        lemma_word_end_all_words(s, i + 1);
    }
}

/// The canonical text of the root expression reparses to the root
/// expression: the parse–serialize round trip for the whole-index query.
pub proof fn lemma_root_round_trip()
    ensures
        spec_expression(spec_serialize(SpecExpr::Root)) == SpecParse::Found(
            SpecExpr::Root,
            spec_serialize(SpecExpr::Root).len() as int,
        ),
{
    let s = spec_serialize(SpecExpr::Root);
    assert(s == seq!['*']);
    assert(!is_space_char(s[0]));
    assert(skip_ws(s, 0) == 0);
    assert(skip_ws(s, 1) == 1);
}

/// The canonical text of a property expression reparses to that property:
/// the parse–serialize round trip for the expressions that name one
/// property.
pub proof fn lemma_property_round_trip(n: Seq<char>)
    requires
        is_valid_name(n),
    ensures
        spec_expression(spec_serialize(SpecExpr::Property(n))) == SpecParse::Found(
            SpecExpr::Property(n),
            n.len() as int,
        ),
{
    let s = spec_serialize(SpecExpr::Property(n));
    assert(s == n);
    let len = s.len() as int;
    assert(is_alpha_char(s[0]) && !is_space_char(s[0]) && s[0] != '*' && s[0] != '('
        && s[0] != '!');
    assert(skip_ws(s, 0) == 0);
    // a negation marker does not stand at the start of a valid name: either
    // the name is not spelled `not`, or nothing follows it, or what follows
    // the three letters is a word character, not whitespace
    assert(spec_not_prefix(s, 0) is None) by {
        if match_nocase_at(s, 0, seq!['n', 'o', 't']) && 3 < s.len() && is_space_char(s[3]) {
            assert(is_word_char(s[3]));
        }
        if match_nocase_at(s, 0, seq!['n', 'o', 't']) && s.len() == 3 {
            assert(char_eq_nocase(s[0], 'n') && char_eq_nocase(s[1], 'o') && char_eq_nocase(
                s[2],
                't',
            ));
            assert(word_is(s, seq!['n', 'o', 't']));
            assert(is_keyword(s));
        }
    }
    lemma_word_end_all_words(s, 0);
    assert(s.subrange(0, len) =~= n);
    assert(spec_term(s, 0) == SpecParse::Found(SpecExpr::Property(n), len));
    // past the end of the input, every operator chain is empty
    assert(skip_ws(s, len) == len);
    assert(spec_rep(s, len, crate::parser::Op::And) == SpecParse::Miss);
    assert(spec_rep(s, len, crate::parser::Op::Or) == SpecParse::Miss);
    assert(spec_rep(s, len, crate::parser::Op::Xor) == SpecParse::Miss);
    assert(spec_rep(s, len, crate::parser::Op::Sub) == SpecParse::Miss);
    assert(spec_chain(s, len, crate::parser::Op::And) == SpecChain::Empty);
    assert(spec_chain(s, len, crate::parser::Op::Or) == SpecChain::Empty);
    assert(spec_chain(s, len, crate::parser::Op::Xor) == SpecChain::Empty);
    assert(spec_chain(s, len, crate::parser::Op::Sub) == SpecChain::Empty);
    assert(spec_op_alt(s, SpecExpr::Property(n), len) == SpecParse::Found(
        SpecExpr::Property(n),
        len,
    ));
    assert(spec_subexpr(s, 0) == SpecParse::Found(SpecExpr::Property(n), len));
}

/// Evaluating a two-child sequence gives the two children's sets.
proof fn lemma_pair_eval(m: Map<Seq<char>, Set<u32>>, a: SpecExpr, b: SpecExpr)
    requires
        eval(m, a) is Ok,
        eval(m, b) is Ok,
    ensures
        eval_all(m, seq![a, b]) == Ok::<Seq<Set<u32>>, Seq<char>>(
            seq![eval(m, a)->Ok_0, eval(m, b)->Ok_0],
        ),
{
    let sa = eval(m, a)->Ok_0;
    let sb = eval(m, b)->Ok_0;
    let tail = seq![b];
    assert(tail[0] == b);
    assert(tail.drop_first() =~= Seq::<SpecExpr>::empty());
    assert(eval_all(m, Seq::<SpecExpr>::empty()) == Ok::<Seq<Set<u32>>, Seq<char>>(
        Seq::<Set<u32>>::empty(),
    ));
    assert(seq![sb] + Seq::<Set<u32>>::empty() =~= seq![sb]);
    assert(eval_all(m, tail) == Ok::<Seq<Set<u32>>, Seq<char>>(seq![sb]));
    let cs = seq![a, b];
    assert(cs[0] == a);
    assert(cs.drop_first() =~= tail);
    assert(seq![sa] + seq![sb] =~= seq![sa, sb]);
    assert(eval_all(m, cs) == Ok::<Seq<Set<u32>>, Seq<char>>(seq![sa, sb]));
}

} // verus!
