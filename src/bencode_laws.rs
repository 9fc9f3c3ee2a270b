//! Laws of the value encoding: decoding gives back what encoding wrote,
//! and everything decoding produces is well formed.
use vstd::prelude::*;
use crate::bencode::{
    canonical, concat, decode_spec, dict_insert, dict_pairs, encode_str, encode_term, entry_parts,
    find_from, insert_pos, key_lt, lemma_find_from, list_parts, parse_dict_items, parse_int_at,
    parse_list_items, parse_str_at, parse_value, strictly_sorted, utf8_decode, well_formed, CodecError,
    Term, Value,
};
use crate::decimal::{int_text, is_digit, nat_text};

verus! {

proof fn lemma_find_at(b: Seq<u8>, from: int, k: int, c: u8)
    requires
        0 <= from <= k < b.len(),
        b[k] == c,
        forall|j: int| from <= j < k ==> b[j] != c,
    ensures
        find_from(b, from, c) == Some(k),
    decreases k - from,
{
    if from < k {
        lemma_find_at(b, from + 1, k, c);
    }
}

proof fn lemma_concat_prefix(s: Seq<Seq<u8>>, k: int, m: int)
    requires
        0 <= k <= m <= s.len(),
    ensures
        concat(s.take(k)).len() <= concat(s.take(m)).len(),
        concat(s.take(m)).subrange(0, concat(s.take(k)).len() as int) == concat(s.take(k)),
    decreases m - k,
{
    if m == k {
        assert(concat(s.take(m)).subrange(0, concat(s.take(k)).len() as int) =~= concat(s.take(k)));
    } else {
        lemma_concat_prefix(s, k, m - 1);
        assert(s.take(m).drop_last() =~= s.take(m - 1));
        let a = concat(s.take(m - 1));
        let b = concat(s.take(m));
        assert(b == a + s[m - 1]);
        assert(b.subrange(0, concat(s.take(k)).len() as int) =~= a.subrange(
            0,
            concat(s.take(k)).len() as int,
        ));
    }
}

proof fn lemma_concat_part(s: Seq<Seq<u8>>, k: int)
    requires
        0 <= k < s.len(),
    ensures
        concat(s.take(k + 1)).len() == concat(s.take(k)).len() + s[k].len(),
        concat(s.take(k + 1)).len() <= concat(s).len(),
        concat(s).subrange(concat(s.take(k)).len() as int, concat(s.take(k + 1)).len() as int)
            == s[k],
{
    lemma_concat_prefix(s, k + 1, s.len() as int);
    assert(s.take(s.len() as int) =~= s);
    assert(s.take(k + 1).drop_last() =~= s.take(k));
    let a = concat(s.take(k));
    let b = concat(s.take(k + 1));
    assert(b == a + s[k]);
    assert(concat(s).subrange(a.len() as int, b.len() as int) =~= s[k]) by {
        assert forall|j: int| 0 <= j < s[k].len() implies concat(s)[a.len() + j] == s[k][j] by {
            assert(concat(s).subrange(0, b.len() as int)[a.len() + j] == b[a.len() + j]);
        }
    }
}

proof fn lemma_str_placed(b: Seq<u8>, pos: int, s: Seq<u8>)
    requires
        0 <= pos,
        pos + encode_str(s).len() <= b.len(),
        b.subrange(pos, pos + encode_str(s).len()) == encode_str(s),
    ensures
        parse_str_at(b, pos) == Ok::<_, CodecError>((s, pos + encode_str(s).len())),
        is_digit(b[pos]),
{
    let e = encode_str(s);
    let t = nat_text(s.len());
    crate::decimal::lemma_nat_text(s.len());
    let c = pos + t.len();
    assert forall|j: int| pos <= j < c implies b[j] != 58u8 by {
        assert(b[j] == b.subrange(pos, pos + e.len())[j - pos]);
        assert(e[j - pos] == t[j - pos]);
    }
    assert(b[c] == b.subrange(pos, pos + e.len())[c - pos]);
    assert(b[pos] == b.subrange(pos, pos + e.len())[0]);
    assert(e[0] == t[0]);
    lemma_find_at(b, pos, c, 58u8);
    assert(b.subrange(pos, c) =~= t) by {
        assert forall|j: int| 0 <= j < t.len() implies b.subrange(pos, c)[j] == t[j] by {
            assert(b[pos + j] == b.subrange(pos, pos + e.len())[j]);
            assert(e[j] == t[j]);
        }
    }
    assert(b.subrange(c + 1, c + 1 + s.len()) =~= s) by {
        assert forall|j: int| 0 <= j < s.len() implies b.subrange(c + 1, c + 1 + s.len())[j] == s[j] by {
            assert(b[c + 1 + j] == b.subrange(pos, pos + e.len())[t.len() + 1 + j]);
        }
    }
}

/// Position of element `k` of a list encoded at `pos`.
spec fn item_pos(parts: Seq<Seq<u8>>, pos: int, k: int) -> int {
    pos + 1 + concat(parts.take(k)).len()
}

proof fn lemma_list_items(b: Seq<u8>, pos: int, l: Seq<Term>, k: int)
    requires
        0 <= k <= l.len(),
        0 <= pos,
        item_pos(list_parts(l), pos, l.len() as int) < b.len(),
        b[item_pos(list_parts(l), pos, l.len() as int)] == 101u8,
        forall|j: int|
            0 <= j < l.len() ==> item_pos(list_parts(l), pos, j) < item_pos(list_parts(l), pos, j + 1)
                && b[item_pos(list_parts(l), pos, j)] != 101u8 && #[trigger] parse_value(
                b,
                item_pos(list_parts(l), pos, j),
            ) == Ok::<_, CodecError>((l[j], item_pos(list_parts(l), pos, j + 1))),
    ensures
        parse_list_items(b, item_pos(list_parts(l), pos, k), l.take(k)) == Ok::<_, CodecError>(
            (l, item_pos(list_parts(l), pos, l.len() as int) + 1),
        ),
    decreases l.len() - k,
{
    let parts = list_parts(l);
    if k == l.len() {
        assert(l.take(k) =~= l);
    } else {
        lemma_list_items(b, pos, l, k + 1);
        assert(l.take(k).push(l[k]) =~= l.take(k + 1));
        assert(parse_value(b, item_pos(parts, pos, k)) == Ok::<_, CodecError>(
            (l[k], item_pos(parts, pos, k + 1)),
        ));
    }
}

pub proof fn lemma_insert_pos_bound<V>(d: Seq<(Seq<u8>, V)>, k: Seq<u8>)
    ensures
        insert_pos(d, k) <= d.len(),
    decreases d.len(),
{
    if d.len() > 0 {
        lemma_insert_pos_bound(d.drop_first(), k);
    }
}

proof fn lemma_insert_pos_all_less<V>(d: Seq<(Seq<u8>, V)>, k: Seq<u8>)
    requires
        forall|i: int| 0 <= i < d.len() ==> key_lt(#[trigger] d[i].0, k),
    ensures
        insert_pos(d, k) == d.len(),
    decreases d.len(),
{
    if d.len() > 0 {
        assert(key_lt(d[0].0, k));
        assert forall|i: int| 0 <= i < d.drop_first().len() implies key_lt(
            #[trigger] d.drop_first()[i].0,
            k,
        ) by {
            assert(d.drop_first()[i] == d[i + 1]);
        }
        lemma_insert_pos_all_less(d.drop_first(), k);
    }
}

proof fn lemma_insert_greatest<V>(d: Seq<(Seq<u8>, V)>, k: Seq<u8>, v: V)
    requires
        forall|i: int| 0 <= i < d.len() ==> key_lt(#[trigger] d[i].0, k),
    ensures
        dict_insert(d, k, v) == d.push((k, v)),
{
    lemma_insert_pos_all_less(d, k);
    assert(d.insert(d.len() as int, (k, v)) =~= d.push((k, v)));
}

proof fn lemma_canonical_sorted<V>(d: Seq<(Seq<u8>, V)>)
    requires
        strictly_sorted(d),
    ensures
        canonical(d) == d,
    decreases d.len(),
{
    if d.len() > 0 {
        let p = d.drop_last();
        assert(strictly_sorted(p)) by {
            assert forall|i: int, j: int| 0 <= i < j < p.len() implies key_lt(
                #[trigger] p[i].0,
                #[trigger] p[j].0,
            ) by {
                assert(p[i] == d[i] && p[j] == d[j]);
            }
        }
        lemma_canonical_sorted(p);
        assert forall|i: int| 0 <= i < p.len() implies key_lt(#[trigger] p[i].0, d.last().0) by {
            assert(p[i] == d[i]);
        }
        lemma_insert_greatest(p, d.last().0, d.last().1);
        assert(p.push(d.last()) =~= d);
    }
}

/// Position of entry `k` of a map encoded at `pos`.
spec fn entry_pos(d: Seq<(Seq<u8>, Term)>, pos: int, k: int) -> int {
    pos + 1 + concat(entry_parts(dict_pairs(d)).take(k)).len()
}

/// Entry `j` of a map encoded at `pos` decodes to itself.
spec fn entry_placed(b: Seq<u8>, pos: int, d: Seq<(Seq<u8>, Term)>, j: int) -> bool {
    let q = entry_pos(d, pos, j);
    let kend = q + encode_str(d[j].0).len();
    &&& q < kend < entry_pos(d, pos, j + 1) <= b.len()
    &&& is_digit(b[q])
    &&& parse_str_at(b, q) == Ok::<_, CodecError>((d[j].0, kend))
    &&& utf8_decode(d[j].0) is Some
    &&& b[kend] != 101u8
    &&& parse_value(b, kend) == Ok::<_, CodecError>((d[j].1, entry_pos(d, pos, j + 1)))
}

proof fn lemma_dict_items(b: Seq<u8>, pos: int, d: Seq<(Seq<u8>, Term)>, k: int)
    requires
        0 <= k <= d.len(),
        0 <= pos,
        strictly_sorted(d),
        entry_pos(d, pos, d.len() as int) < b.len(),
        b[entry_pos(d, pos, d.len() as int)] == 101u8,
        forall|j: int|
            0 <= j < d.len() ==> #[trigger] entry_placed(b, pos, d, j),
    ensures
        parse_dict_items(b, entry_pos(d, pos, k), d.take(k)) == Ok::<_, CodecError>(
            (d, entry_pos(d, pos, d.len() as int) + 1),
        ),
    decreases d.len() - k,
{
    if k == d.len() {
        assert(d.take(k) =~= d);
    } else {
        lemma_dict_items(b, pos, d, k + 1);
        assert(entry_placed(b, pos, d, k));
        assert forall|i: int| 0 <= i < d.take(k).len() implies key_lt(
            #[trigger] d.take(k)[i].0,
            d[k].0,
        ) by {
            assert(d.take(k)[i] == d[i]);
        }
        lemma_insert_greatest(d.take(k), d[k].0, d[k].1);
        assert(d.take(k).push((d[k].0, d[k].1)) =~= d.take(k + 1));
    }
}

proof fn lemma_int_placed(b: Seq<u8>, pos: int, i: int)
    requires
        i64::MIN <= i <= i64::MAX,
        0 <= pos,
        pos + encode_term(Term::Int(i)).len() <= b.len(),
        b.subrange(pos, pos + encode_term(Term::Int(i)).len()) == encode_term(Term::Int(i)),
    ensures
        parse_int_at(b, pos) == Ok::<_, CodecError>((i, pos + encode_term(Term::Int(i)).len())),
{
    let e = encode_term(Term::Int(i));
    let it = int_text(i);
    crate::decimal::lemma_nat_text(if i < 0 { (-i) as nat } else { i as nat });
    let c = pos + 1 + it.len();
    assert forall|j: int| pos + 1 <= j < c implies b[j] != 101u8 by {
        assert(b[j] == b.subrange(pos, pos + e.len())[j - pos]);
        assert(e[j - pos] == it[j - pos - 1]);
        if i < 0 && j > pos + 1 {
            assert(it[j - pos - 1] == nat_text((-i) as nat)[j - pos - 2]);
        }
    }
    assert(b[c] == b.subrange(pos, pos + e.len())[c - pos]);
    lemma_find_at(b, pos + 1, c, 101u8);
    assert(b.subrange(pos + 1, c) =~= it) by {
        assert forall|j: int| 0 <= j < it.len() implies b.subrange(pos + 1, c)[j] == it[j] by {
            assert(b[pos + 1 + j] == b.subrange(pos, pos + e.len())[1 + j]);
        }
    }
    crate::decimal::lemma_int_text_round_trip(i);
}

/// A part of a concatenation placed in `b` at `start` is placed at its own offset.
proof fn lemma_part_placed(b: Seq<u8>, start: int, parts: Seq<Seq<u8>>, j: int)
    requires
        0 <= j < parts.len(),
        0 <= start,
        start + concat(parts).len() <= b.len(),
        b.subrange(start, start + concat(parts).len()) == concat(parts),
    ensures
        ({
            let q = start + concat(parts.take(j)).len();
            let n = start + concat(parts.take(j + 1)).len();
            &&& n == q + parts[j].len()
            &&& n <= start + concat(parts).len()
            &&& b.subrange(q, n) == parts[j]
        }),
{
    lemma_concat_part(parts, j);
    let c = concat(parts);
    let a = concat(parts.take(j)).len();
    let q = start + a;
    let pj = parts[j];
    assert(b.subrange(q, q + pj.len()) =~= pj) by {
        assert forall|x: int| 0 <= x < pj.len() implies b.subrange(q, q + pj.len())[x] == pj[x] by {
            assert(b[q + x] == b.subrange(start, start + c.len())[a + x]);
            assert(c.subrange(a as int, (a + pj.len()) as int)[x] == c[a + x]);
        }
    }
}

/// The body of a list or map encoded at `pos` is placed right after its tag.
proof fn lemma_body_placed(b: Seq<u8>, pos: int, tag: u8, c: Seq<u8>)
    requires
        0 <= pos,
        pos + c.len() + 2 <= b.len(),
        b.subrange(pos, pos + c.len() + 2) == seq![tag] + c + seq![101u8],
    ensures
        b.subrange(pos + 1, pos + 1 + c.len()) == c,
        b[pos] == tag,
        b[pos + 1 + c.len()] == 101u8,
{
    let e = seq![tag] + c + seq![101u8];
    assert(b[pos] == b.subrange(pos, pos + e.len())[0]);
    assert(b[pos + 1 + c.len()] == b.subrange(pos, pos + e.len())[(1 + c.len()) as int]);
    assert(b.subrange(pos + 1, pos + 1 + c.len()) =~= c) by {
        assert forall|x: int| 0 <= x < c.len() implies b.subrange(pos + 1, pos + 1 + c.len())[x]
            == c[x] by {
            assert(b[pos + 1 + x] == b.subrange(pos, pos + e.len())[1 + x]);
        }
    }
}

/// A key and value placed back to back.
proof fn lemma_split_placed(b: Seq<u8>, q: int, ks: Seq<u8>, vs: Seq<u8>)
    requires
        0 <= q,
        q + ks.len() + vs.len() <= b.len(),
        b.subrange(q, q + ks.len() + vs.len()) == ks + vs,
    ensures
        b.subrange(q, q + ks.len()) == ks,
        b.subrange(q + ks.len(), q + ks.len() + vs.len()) == vs,
{
    let pj = ks + vs;
    assert(b.subrange(q, q + ks.len()) =~= ks) by {
        assert forall|x: int| 0 <= x < ks.len() implies b.subrange(q, q + ks.len())[x] == ks[x] by {
            assert(b.subrange(q, q + pj.len())[x] == pj[x]);
        }
    }
    let kend = q + ks.len();
    assert(b.subrange(kend, kend + vs.len()) =~= vs) by {
        assert forall|x: int| 0 <= x < vs.len() implies b.subrange(kend, kend + vs.len())[x]
            == vs[x] by {
            assert(b.subrange(q, q + pj.len())[ks.len() + x] == pj[ks.len() + x]);
        }
    }
}

proof fn lemma_sorted_pairs(d: Seq<(Seq<u8>, Term)>)
    requires
        strictly_sorted(d),
    ensures
        canonical(dict_pairs(d)) == dict_pairs(d),
{
    let pairs = dict_pairs(d);
    assert(strictly_sorted(pairs)) by {
        assert forall|i: int, j: int| 0 <= i < j < pairs.len() implies key_lt(
            #[trigger] pairs[i].0,
            #[trigger] pairs[j].0,
        ) by {
            assert(key_lt(d[i].0, d[j].0));
        }
    }
    lemma_canonical_sorted(pairs);
}

#[verifier::spinoff_prover]
#[verifier::rlimit(40)]
proof fn lemma_term_placed(b: Seq<u8>, pos: int, t: Term)
    requires
        well_formed(t),
        0 <= pos,
        pos + encode_term(t).len() <= b.len(),
        b.subrange(pos, pos + encode_term(t).len()) == encode_term(t),
    ensures
        parse_value(b, pos) == Ok::<_, CodecError>((t, pos + encode_term(t).len())),
        encode_term(t).len() > 0,
        b[pos] != 101u8,
    decreases t,
{
    let e = encode_term(t);
    assert(b[pos] == b.subrange(pos, pos + e.len())[0]);
    match t {
        Term::Int(i) => {
            lemma_int_placed(b, pos, i);
        },
        Term::Str(s) => {
            lemma_str_placed(b, pos, s);
        },
        Term::List(l) => {
            let parts = list_parts(l);
            let c = concat(parts);
            lemma_body_placed(b, pos, 108u8, c);
            assert(parts.take(0) =~= Seq::<Seq<u8>>::empty());
            assert(l.take(0) =~= Seq::<Term>::empty());
            assert(parts.take(l.len() as int) =~= parts);
            assert forall|j: int|
                0 <= j < l.len() implies item_pos(parts, pos, j) < item_pos(parts, pos, j + 1)
                && b[item_pos(parts, pos, j)] != 101u8 && #[trigger] parse_value(
                b,
                item_pos(parts, pos, j),
            ) == Ok::<_, CodecError>((l[j], item_pos(parts, pos, j + 1))) by {
                lemma_part_placed(b, pos + 1, parts, j);
                assert(parts[j] == encode_term(l[j]));
                assert(decreases_to!(t => t->List_0));
                assert(decreases_to!(l => l[j]));
                lemma_term_placed(b, item_pos(parts, pos, j), l[j]);
            }
            lemma_list_items(b, pos, l, 0);
        },
        Term::Dict(d) => {
            lemma_sorted_pairs(d);
            let parts = entry_parts(dict_pairs(d));
            let c = concat(parts);
            lemma_body_placed(b, pos, 100u8, c);
            assert(parts.take(0) =~= Seq::<Seq<u8>>::empty());
            assert(d.take(0) =~= Seq::<(Seq<u8>, Term)>::empty());
            assert(parts.take(d.len() as int) =~= parts);
            assert forall|j: int| 0 <= j < d.len() implies #[trigger] entry_placed(b, pos, d, j) by {
                lemma_part_placed(b, pos + 1, parts, j);
                let q = entry_pos(d, pos, j);
                let ks = encode_str(d[j].0);
                let vs = encode_term(d[j].1);
                assert(parts[j] == ks + vs);
                lemma_split_placed(b, q, ks, vs);
                lemma_str_placed(b, q, d[j].0);
                assert(decreases_to!(t => t->Dict_0));
                assert(decreases_to!(d => d[j]));
                assert(decreases_to!(d[j] => d[j].1));
                lemma_term_placed(b, q + ks.len(), d[j].1);
            }
            lemma_dict_items(b, pos, d, 0);
        },
    }
}

/// Decoding the canonical encoding of a well-formed value gives that value back.
pub proof fn lemma_decode_encode(v: Value)
    requires
        well_formed(v@),
    ensures
        decode_spec(encode_term(v@)) == Ok::<Term, CodecError>(v@),
{
    let e = encode_term(v@);
    assert(e.subrange(0, e.len() as int) =~= e);
    lemma_term_placed(e, 0, v@);
}

proof fn lemma_key_lt_irreflexive(a: Seq<u8>)
    ensures
        !key_lt(a, a),
    decreases a.len(),
{
    if a.len() > 0 {
        lemma_key_lt_irreflexive(a.drop_first());
    }
}

proof fn lemma_key_lt_transitive(a: Seq<u8>, b: Seq<u8>, c: Seq<u8>)
    requires
        key_lt(a, b),
        key_lt(b, c),
    ensures
        key_lt(a, c),
    decreases a.len(),
{
    if a.len() > 0 && b.len() > 0 && c.len() > 0 && a[0] == b[0] && b[0] == c[0] {
        lemma_key_lt_transitive(a.drop_first(), b.drop_first(), c.drop_first());
    }
}

proof fn lemma_key_lt_total(a: Seq<u8>, b: Seq<u8>)
    requires
        a != b,
    ensures
        key_lt(a, b) || key_lt(b, a),
    decreases a.len(),
{
    if a.len() > 0 && b.len() > 0 && a[0] == b[0] {
        if a.drop_first() == b.drop_first() {
            assert(a =~= seq![a[0]] + a.drop_first());
            assert(b =~= seq![b[0]] + b.drop_first());
        }
        lemma_key_lt_total(a.drop_first(), b.drop_first());
    } else if a.len() == 0 && b.len() == 0 {
        assert(a =~= b);
    }
}

proof fn lemma_insert_pos<V>(d: Seq<(Seq<u8>, V)>, k: Seq<u8>)
    ensures
        insert_pos(d, k) <= d.len(),
        forall|j: int| 0 <= j < insert_pos(d, k) ==> key_lt(#[trigger] d[j].0, k),
        insert_pos(d, k) < d.len() ==> !key_lt(d[insert_pos(d, k) as int].0, k),
    decreases d.len(),
{
    if d.len() > 0 && key_lt(d[0].0, k) {
        let t = d.drop_first();
        lemma_insert_pos(t, k);
        assert forall|j: int| 0 <= j < insert_pos(d, k) implies key_lt(#[trigger] d[j].0, k) by {
            if j > 0 {
                assert(d[j] == t[j - 1]);
            }
        }
        if insert_pos(d, k) < d.len() {
            assert(d[insert_pos(d, k) as int] == t[insert_pos(t, k) as int]);
        }
    }
}

/// Entries with strictly ascending keys that are text, and well-formed values.
pub open spec fn entries_wf(d: Seq<(Seq<u8>, Term)>) -> bool {
    strictly_sorted(d) && forall|i: int|
        0 <= i < d.len() ==> utf8_decode(#[trigger] d[i].0) is Some && well_formed(d[i].1)
}

proof fn lemma_dict_insert_sorted<V>(d: Seq<(Seq<u8>, V)>, k: Seq<u8>, v: V)
    requires
        strictly_sorted(d),
    ensures
        strictly_sorted(dict_insert(d, k, v)),
        forall|a: int|
            0 <= a < dict_insert(d, k, v).len() ==> (#[trigger] dict_insert(d, k, v)[a] == (k, v))
                || exists|b: int| 0 <= b < d.len() && dict_insert(d, k, v)[a] == d[b],
{
    lemma_insert_pos(d, k);
    let i = insert_pos(d, k) as int;
    let r = dict_insert(d, k, v);
    if i < d.len() && d[i].0 == k {
        assert forall|a: int, b: int| 0 <= a < b < r.len() implies key_lt(
            #[trigger] r[a].0,
            #[trigger] r[b].0,
        ) by {
            assert(r[a].0 == d[a].0 && r[b].0 == d[b].0);
        }
        assert forall|a: int| 0 <= a < r.len() implies (#[trigger] r[a] == (k, v)) || exists|
            b: int,
        | 0 <= b < d.len() && r[a] == d[b] by {
            if a != i {
                assert(r[a] == d[a]);
            }
        }
    } else {
        if i < d.len() {
            lemma_key_lt_total(d[i].0, k);
        }
        assert forall|a: int, b: int| 0 <= a < b < r.len() implies key_lt(
            #[trigger] r[a].0,
            #[trigger] r[b].0,
        ) by {
            if b < i {
                assert(r[a] == d[a] && r[b] == d[b]);
            } else if b == i {
                assert(r[a] == d[a]);
            } else if a < i {
                assert(r[a] == d[a] && r[b] == d[b - 1]);
                if b - 1 > i {
                    lemma_key_lt_transitive(k, d[i].0, d[b - 1].0);
                }
                lemma_key_lt_transitive(d[a].0, k, d[b - 1].0);
            } else if a == i {
                assert(r[b] == d[b - 1]);
                if b - 1 > i {
                    lemma_key_lt_transitive(k, d[i].0, d[b - 1].0);
                }
            } else {
                assert(r[a] == d[a - 1] && r[b] == d[b - 1]);
            }
        }
        assert forall|a: int| 0 <= a < r.len() implies (#[trigger] r[a] == (k, v)) || exists|
            b: int,
        | 0 <= b < d.len() && r[a] == d[b] by {
            if a < i {
                assert(r[a] == d[a]);
            } else if a > i {
                assert(r[a] == d[a - 1]);
            }
        }
    }
}

proof fn lemma_dict_insert_wf(d: Seq<(Seq<u8>, Term)>, k: Seq<u8>, v: Term)
    requires
        entries_wf(d),
        utf8_decode(k) is Some,
        well_formed(v),
    ensures
        entries_wf(dict_insert(d, k, v)),
{
    lemma_dict_insert_sorted(d, k, v);
    let r = dict_insert(d, k, v);
    assert forall|a: int| 0 <= a < r.len() implies utf8_decode(#[trigger] r[a].0) is Some
        && well_formed(r[a].1) by {
        if r[a] != (k, v) {
            let b = choose|b: int| 0 <= b < d.len() && r[a] == d[b];
            assert(utf8_decode(d[b].0) is Some && well_formed(d[b].1));
        }
    }
}

/// Whatever order a map's entries are in, the order `encode` writes them in
/// has strictly ascending keys: sorted, each key once.
pub proof fn lemma_canonical_sorted_output<V>(d: Seq<(Seq<u8>, V)>)
    ensures
        strictly_sorted(canonical(d)),
    decreases d.len(),
{
    if d.len() > 0 {
        lemma_canonical_sorted_output(d.drop_last());
        lemma_dict_insert_sorted(canonical(d.drop_last()), d.last().0, d.last().1);
    }
}

proof fn lemma_parse_wf(b: Seq<u8>, pos: int)
    ensures
        parse_value(b, pos) matches Ok((t, _)) ==> well_formed(t),
    decreases b.len() - pos, 0int,
{
    if 0 <= pos < b.len() {
        if b[pos] == 108u8 {
            lemma_list_wf(b, pos + 1, Seq::empty());
        } else if b[pos] == 100u8 && !is_digit(b[pos]) {
            lemma_dict_wf(b, pos + 1, Seq::empty());
        }
    }
}

proof fn lemma_list_wf(b: Seq<u8>, pos: int, acc: Seq<Term>)
    requires
        forall|i: int| 0 <= i < acc.len() ==> well_formed(#[trigger] acc[i]),
    ensures
        parse_list_items(b, pos, acc) matches Ok((l, _)) ==> forall|i: int|
            0 <= i < l.len() ==> well_formed(#[trigger] l[i]),
    decreases b.len() - pos, 1int,
{
    if 0 <= pos < b.len() && b[pos] != 101u8 {
        lemma_parse_wf(b, pos);
        if let Ok((t, end)) = parse_value(b, pos) {
            if pos < end <= b.len() {
                let a2 = acc.push(t);
                assert forall|i: int| 0 <= i < a2.len() implies well_formed(#[trigger] a2[i]) by {
                    if i < acc.len() {
                        assert(a2[i] == acc[i]);
                    }
                }
                lemma_list_wf(b, end, a2);
            }
        }
    }
}

proof fn lemma_dict_wf(b: Seq<u8>, pos: int, acc: Seq<(Seq<u8>, Term)>)
    requires
        entries_wf(acc),
    ensures
        parse_dict_items(b, pos, acc) matches Ok((d, _)) ==> entries_wf(d),
    decreases b.len() - pos, 1int,
{
    if 0 <= pos < b.len() && b[pos] != 101u8 && is_digit(b[pos]) {
        if let Ok((k, kend)) = parse_str_at(b, pos) {
            lemma_find_from(b, pos, 58u8);
            if utf8_decode(k) is Some && kend < b.len() && b[kend] != 101u8 {
                lemma_parse_wf(b, kend);
                if let Ok((v, end)) = parse_value(b, kend) {
                    if pos < end <= b.len() {
                        lemma_dict_insert_wf(acc, k, v);
                        lemma_dict_wf(b, end, dict_insert(acc, k, v));
                    }
                }
            }
        }
    }
}

/// Every value that decoding produces is well formed.
pub proof fn lemma_decoded_well_formed(b: Seq<u8>)
    ensures
        decode_spec(b) matches Ok(t) ==> well_formed(t),
{
    lemma_parse_wf(b, 0);
}

} // verus!
