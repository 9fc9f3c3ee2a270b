//! A JSON-like rendering of values for people to read.
use vstd::prelude::*;
use vstd::string::{StrSliceExecFns, StringSliceAdditionalSpecFns};
use crate::bencode::{
    canonical, decode, decode_spec, dict_insert, entries, insert_pos, insert_entry, lemma_dict_view, lemma_list_view, terms, utf8_decode,
    utf8_text, CodecError, Term, Value,
};
use crate::bencode_laws::lemma_insert_pos_bound;
use crate::decimal::{ascii_chars, ascii_string, int_text, lemma_nat_text, nat_text, write_int};

verus! {

/// How `{:?}` shows a text: quoted, with special characters escaped.
pub uninterp spec fn debug_quoted(s: Seq<char>) -> Seq<char>;

/// Relies on `format!("{:?}", s)` for `str`: the quoted and escaped form of
/// the text, which depends on the text alone.
#[verifier::external_body]
fn quote_text(s: &str) -> (r: String)
    ensures
        r@ == debug_quoted(s@),
{
    format!("{:?}", s)
}

/// The parts separated by commas.
pub open spec fn join(parts: Seq<Seq<char>>) -> Seq<char>
    decreases parts.len(),
{
    if parts.len() == 0 {
        Seq::empty()
    } else if parts.len() == 1 {
        parts[0]
    } else {
        join(parts.drop_last()) + seq![','] + parts.last()
    }
}

pub open spec fn all_shown(s: Seq<Option<Seq<char>>>) -> bool {
    forall|i: int| 0 <= i < s.len() ==> (#[trigger] s[i]) is Some
}

pub open spec fn shown(s: Seq<Option<Seq<char>>>) -> Seq<Seq<char>> {
    Seq::new(s.len(), |i: int| s[i]->0)
}

/// The renderings of list elements.
pub open spec fn list_shown(l: Seq<Term>) -> Seq<Option<Seq<char>>>
    decreases l,
{
    Seq::new(l.len(), |i: int| if 0 <= i < l.len() { display_term(l[i]) } else { None })
}

/// Map keys with the renderings of their values, in the map's own order.
pub open spec fn dict_shown(d: Seq<(Seq<u8>, Term)>) -> Seq<(Seq<u8>, Option<Seq<char>>)>
    decreases d,
{
    Seq::new(
        d.len(),
        |i: int| if 0 <= i < d.len() { (d[i].0, display_term(d[i].1)) } else { (Seq::empty(), None) },
    )
}

/// Every key is text and every value can be shown.
pub open spec fn dict_showable(s: Seq<(Seq<u8>, Option<Seq<char>>)>) -> bool {
    forall|i: int| 0 <= i < s.len() ==> (#[trigger] s[i]).1 is Some && utf8_decode(s[i].0) is Some
}

pub open spec fn unwrap_values(s: Seq<(Seq<u8>, Option<Seq<char>>)>) -> Seq<(Seq<u8>, Seq<char>)> {
    Seq::new(s.len(), |i: int| (s[i].0, s[i].1->0))
}

/// `"key":value` for each entry.
pub open spec fn entry_texts(s: Seq<(Seq<u8>, Seq<char>)>) -> Seq<Seq<char>> {
    Seq::new(
        s.len(),
        |i: int| seq!['"'] + utf8_decode(s[i].0)->0 + seq!['"', ':'] + s[i].1,
    )
}

/// The rendering: integers in decimal, byte strings as quoted text, lists in
/// `[...]`, maps in `{...}` with keys in ascending order; `None` when some
/// byte string is not valid UTF-8.
pub open spec fn display_term(t: Term) -> Option<Seq<char>>
    decreases t,
{
    match t {
        Term::Int(i) => Some(ascii_chars(int_text(i))),
        Term::Str(s) => match utf8_decode(s) {
            Some(x) => Some(debug_quoted(x)),
            None => None,
        },
        Term::List(l) => if all_shown(list_shown(l)) {
            Some(seq!['['] + join(shown(list_shown(l))) + seq![']'])
        } else {
            None
        },
        Term::Dict(d) => if dict_showable(dict_shown(d)) {
            Some(
                seq!['{'] + join(entry_texts(canonical(unwrap_values(dict_shown(d))))) + seq!['}'],
            )
        } else {
            None
        },
    }
}

fn int_string(i: i64) -> (r: String)
    ensures
        r@ == ascii_chars(int_text(i as int)),
{
    let mut bytes: Vec<u8> = Vec::new();
    write_int(&mut bytes, i);
    proof {
        let t = int_text(i as int);
        assert(bytes@ =~= t);
        lemma_nat_text(if i < 0 { -i as nat } else { i as nat });
        assert forall|j: int| 0 <= j < t.len() implies t[j] < 128 by {
            if i < 0 && j > 0 {
                assert(t[j] == nat_text(-i as nat)[j - 1]);
            }
        }
    }
    ascii_string(bytes)
}

fn append_joined(out: &mut String, j: usize, part: &str)
    ensures
        j == 0 ==> final(out)@ == old(out)@ + part@,
        j > 0 ==> final(out)@ == old(out)@ + seq![','] + part@,
{
    if j > 0 {
        proof {
            reveal_strlit(",");
        }
        out.append(",");
    }
    out.append(part);
}

proof fn lemma_join_step(parts: Seq<Seq<char>>, j: int)
    requires
        0 <= j < parts.len(),
    ensures
        j == 0 ==> join(parts.take(j + 1)) == parts[j],
        j > 0 ==> join(parts.take(j + 1)) == join(parts.take(j)) + seq![','] + parts[j],
{
    assert(parts.take(j + 1).drop_last() =~= parts.take(j));
}

proof fn lemma_canonical_keys_text(us: Seq<(Seq<u8>, Seq<char>)>)
    requires
        forall|i: int| 0 <= i < us.len() ==> utf8_decode((#[trigger] us[i]).0) is Some,
    ensures
        forall|k: int|
            0 <= k < canonical(us).len() ==> utf8_decode((#[trigger] canonical(us)[k]).0) is Some,
    decreases us.len(),
{
    if us.len() > 0 {
        let p = us.drop_last();
        assert forall|i: int| 0 <= i < p.len() implies utf8_decode((#[trigger] p[i]).0) is Some by {
            assert(p[i] == us[i]);
        }
        lemma_canonical_keys_text(p);
        let c = canonical(p);
        let k = us.last().0;
        lemma_insert_pos_bound(c, k);
        let i = insert_pos(c, k) as int;
        let r = dict_insert(c, k, us.last().1);
        assert(utf8_decode(k) is Some);
        assert forall|m: int| 0 <= m < r.len() implies utf8_decode((#[trigger] r[m]).0) is Some by {
            if i < c.len() && c[i].0 == k {
                if m != i {
                    assert(r[m] == c[m]);
                }
            } else {
                if m < i {
                    assert(r[m] == c[m]);
                } else if m > i {
                    assert(r[m] == c[m - 1]);
                }
            }
        }
    }
}

/// Renders `value` for people to read: `Err(InvalidUtf8)` exactly when some
/// byte string in it is not valid UTF-8.
pub fn to_string(value: &Value) -> (r: Result<String, CodecError>)
    ensures
        match r {
            Ok(s) => display_term(value@) == Some(s@),
            Err(e) => display_term(value@) is None && e == CodecError::InvalidUtf8,
        },
    decreases value@,
{
    match value {
        Value::Int(x) => Ok(int_string(*x)),
        Value::Str(s) => match utf8_text(s.as_slice()) {
            Some(text) => Ok(quote_text(text)),
            None => Err(CodecError::InvalidUtf8),
        },
        Value::List(l) => {
            proof {
                lemma_list_view(*l);
            }
            let ghost ts = terms(l@);
            let ghost ps = list_shown(ts);
            let mut out = String::new();
            proof {
                reveal_strlit("[");
                reveal_strlit("]");
                assert(shown(ps).take(0) =~= Seq::<Seq<char>>::empty());
                assert(shown(ps.take(0)) =~= shown(ps).take(0));
            }
            out.append("[");
            let mut i: usize = 0;
            while i < l.len()
                invariant
                    i <= l@.len() == ts.len() == ps.len(),
                    ts == terms(l@),
                    value@ == Term::List(ts),
                    ps == list_shown(ts),
                    forall|k: int| 0 <= k < i ==> (#[trigger] ps[k]) is Some,
                    out@ == seq!['['] + join(shown(ps).take(i as int)),
                decreases l@.len() - i,
            {
                proof {
                    assert(l[i as int]@ == ts[i as int]);
                    assert(decreases_to!(value@ => value@->List_0));
                    assert(decreases_to!(ts => ts[i as int]));
                }
                let part = match to_string(&l[i]) {
                    Ok(p) => p,
                    Err(e) => {
                        proof {
                            assert(ps[i as int] is None);
                        }
                        return Err(e);
                    },
                };
                append_joined(&mut out, i, part.as_str());
                proof {
                    lemma_join_step(shown(ps), i as int);
                    assert(shown(ps)[i as int] == part@);
                    assert(out@ =~= seq!['['] + join(shown(ps).take(i + 1)));
                }
                i = i + 1;
            }
            out.append("]");
            proof {
                assert(shown(ps).take(i as int) =~= shown(ps));
                assert(out@ =~= seq!['['] + join(shown(ps)) + seq![']']);
            }
            Ok(out)
        },
        Value::Dict(d) => {
            proof {
                lemma_dict_view(*d);
            }
            let ghost ds = entries(d@);
            let ghost ps = dict_shown(ds);
            let ghost us = unwrap_values(ps);
            let mut sorted: Vec<(Vec<u8>, String)> = Vec::new();
            let mut i: usize = 0;
            proof {
                assert(us.take(0) =~= Seq::<(Seq<u8>, Seq<char>)>::empty());
                assert(entries(sorted@) =~= Seq::<(Seq<u8>, Seq<char>)>::empty());
            }
            while i < d.len()
                invariant
                    i <= d@.len() == ds.len() == ps.len() == us.len(),
                    ds == entries(d@),
                    value@ == Term::Dict(ds),
                    ps == dict_shown(ds),
                    us == unwrap_values(ps),
                    forall|k: int|
                        0 <= k < i ==> (#[trigger] ps[k]).1 is Some && utf8_decode(ps[k].0) is Some,
                    entries(sorted@) == canonical(us.take(i as int)),
                decreases d@.len() - i,
            {
                proof {
                    assert(d[i as int].1@ == ds[i as int].1);
                    assert(decreases_to!(value@ => value@->Dict_0));
                    assert(decreases_to!(ds => ds[i as int]));
                    assert(decreases_to!(ds[i as int] => ds[i as int].1));
                }
                let part = match to_string(&d[i].1) {
                    Ok(p) => p,
                    Err(e) => {
                        proof {
                            assert(ps[i as int].1 is None);
                        }
                        return Err(e);
                    },
                };
                if utf8_text(d[i].0.as_slice()).is_none() {
                    proof {
                        assert(ps[i as int].0 == d@[i as int].0@);
                    }
                    return Err(CodecError::InvalidUtf8);
                }
                let mut key: Vec<u8> = Vec::new();
                crate::bencode::append_bytes(&mut key, d[i].0.as_slice());
                insert_entry(&mut sorted, key, part);
                proof {
                    assert(us.take(i + 1).drop_last() =~= us.take(i as int));
                    assert(us[i as int] == (ds[i as int].0, part@));
                }
                i = i + 1;
            }
            proof {
                assert(us.take(i as int) =~= us);
                assert(dict_showable(ps));
            }
            let ghost es = entry_texts(canonical(us));
            let mut out = String::new();
            proof {
                reveal_strlit("{");
                reveal_strlit("}");
                assert(es.take(0) =~= Seq::<Seq<char>>::empty());
                lemma_canonical_keys_text(us);
            }
            out.append("{");
            let mut j: usize = 0;
            while j < sorted.len()
                invariant
                    j <= sorted@.len() == es.len(),
                    entries(sorted@) == canonical(us),
                    es == entry_texts(canonical(us)),
                    forall|k: int|
                        0 <= k < canonical(us).len() ==> utf8_decode(
                            (#[trigger] canonical(us)[k]).0,
                        ) is Some,
                    out@ == seq!['{'] + join(es.take(j as int)),
                decreases sorted@.len() - j,
            {
                let text = match utf8_text(sorted[j].0.as_slice()) {
                    Some(t) => t,
                    None => {
                        proof {
                            assert(canonical(us)[j as int].0 == sorted@[j as int].0@);
                        }
                        return Err(CodecError::InvalidUtf8);
                    },
                };
                proof {
                    reveal_strlit("\"");
                    reveal_strlit("\":");
                }
                let mut part = String::new();
                part.append("\"");
                part.append(text);
                part.append("\":");
                part.append(sorted[j].1.as_str());
                append_joined(&mut out, j, part.as_str());
                proof {
                    assert(canonical(us)[j as int] == (sorted@[j as int].0@, sorted@[j as int].1@));
                    assert(part@ =~= es[j as int]);
                    lemma_join_step(es, j as int);
                    assert(out@ =~= seq!['{'] + join(es.take(j + 1)));
                }
                j = j + 1;
            }
            out.append("}");
            proof {
                assert(es.take(j as int) =~= es);
                assert(out@ =~= seq!['{'] + join(es) + seq!['}']);
            }
            Ok(out)
        },
    }
}

/// Decodes the value that `value`'s bytes begin with and renders it.
pub fn decode_bencoded_value(value: &str) -> (r: Result<String, CodecError>)
    ensures
        match decode_spec(value.spec_bytes()) {
            Err(e) => r == Err::<String, CodecError>(e),
            Ok(t) => match display_term(t) {
                Some(s) => (r matches Ok(x) && x@ == s),
                None => r == Err::<String, CodecError>(CodecError::InvalidUtf8),
            },
        },
{
    let bytes = value.as_bytes_vec();
    let v = decode(bytes.as_slice())?;
    to_string(&v)
}

} // verus!
