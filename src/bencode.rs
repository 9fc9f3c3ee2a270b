//! The self-delimiting value encoding: integers, byte strings, lists and
//! maps with byte-string keys.
use vstd::prelude::*;
pub use crate::display::to_string;
use crate::decimal::{
    all_digits, digits_value, int_text, int_text_value, is_digit, nat_text, parse_digits,
    parse_int_text, write_int, write_nat,
};

verus! {

/// A decoded value. A map holds its entries as (key, value) pairs; a
/// well-formed map (see `well_formed`) keeps its keys unique, valid UTF-8 and
/// in ascending byte order, which is how `decode` builds it.
#[derive(Debug, PartialEq)]
pub enum Value {
    Int(i64),
    Str(Vec<u8>),
    List(Vec<Value>),
    Dict(Vec<(Vec<u8>, Value)>),
}

/// The mathematical form of a `Value`.
pub enum Term {
    Int(int),
    Str(Seq<u8>),
    List(Seq<Term>),
    Dict(Seq<(Seq<u8>, Term)>),
}

/// Why a value could not be decoded or rendered.
#[derive(Debug, Clone, Copy, PartialEq, Eq, Structural)]
pub enum CodecError {
    MalformedInteger,
    MalformedString,
    UnterminatedList,
    UnterminatedMap,
    InvalidMapKey,
    UnrecognizedTag,
    InvalidUtf8,
}

/// The mathematical form of a value.
pub open spec fn term_of(v: &Value) -> Term
    decreases v,
{
    match v {
        Value::Int(i) => Term::Int(*i as int),
        Value::Str(s) => Term::Str(s@),
        Value::List(l) => Term::List(
            Seq::new(l.len() as nat, |i: int| if 0 <= i < l.len() { term_of(&l[i]) } else { Term::Int(0) }),
        ),
        Value::Dict(d) => Term::Dict(
            Seq::new(
                d.len() as nat,
                |i: int|
                    if 0 <= i < d.len() {
                        (d[i].0@, term_of(&d[i].1))
                    } else {
                        (Seq::empty(), Term::Int(0))
                    },
            ),
        ),
    }
}

impl View for Value {
    type V = Term;

    open spec fn view(&self) -> Term {
        term_of(self)
    }
}

/// The views of a sequence of values.
pub open spec fn terms(l: Seq<Value>) -> Seq<Term> {
    Seq::new(l.len(), |i: int| l[i]@)
}

/// The views of a sequence of map entries.
pub open spec fn entries<V: View>(d: Seq<(Vec<u8>, V)>) -> Seq<(Seq<u8>, V::V)> {
    Seq::new(d.len(), |i: int| (d[i].0@, d[i].1@))
}

pub proof fn lemma_list_view(l: Vec<Value>)
    ensures
        Value::List(l)@ == Term::List(terms(l@)),
{
    assert(Value::List(l)@->List_0 =~= terms(l@));
}

pub proof fn lemma_dict_view(d: Vec<(Vec<u8>, Value)>)
    ensures
        Value::Dict(d)@ == Term::Dict(entries(d@)),
{
    assert(Value::Dict(d)@->Dict_0 =~= entries(d@));
}

/// The text of a UTF-8 byte sequence, or `None` when it is not valid UTF-8.
pub uninterp spec fn utf8_decode(b: Seq<u8>) -> Option<Seq<char>>;

/// Relies on `std::str::from_utf8`: it succeeds exactly on valid UTF-8, and
/// then gives the text the bytes spell.
#[verifier::external_body]
pub(crate) fn utf8_text(b: &[u8]) -> (r: Option<&str>)
    ensures
        match r {
            Some(s) => utf8_decode(b@) == Some(s@),
            None => utf8_decode(b@) is None,
        },
{
    std::str::from_utf8(b).ok()
}

/// Ascending byte-wise order of keys (a proper prefix comes first).
pub open spec fn key_lt(a: Seq<u8>, b: Seq<u8>) -> bool
    decreases a.len(),
{
    if a.len() == 0 {
        b.len() > 0
    } else if b.len() == 0 {
        false
    } else if a[0] != b[0] {
        a[0] < b[0]
    } else {
        key_lt(a.drop_first(), b.drop_first())
    }
}

/// Number of leading entries whose keys sort before `k`: where `k` goes.
pub open spec fn insert_pos<V>(d: Seq<(Seq<u8>, V)>, k: Seq<u8>) -> nat
    decreases d.len(),
{
    if d.len() > 0 && key_lt(d[0].0, k) {
        1 + insert_pos(d.drop_first(), k)
    } else {
        0
    }
}

/// Puts `(k, v)` into a sorted entry list; an equal key has its value replaced.
pub open spec fn dict_insert<V>(d: Seq<(Seq<u8>, V)>, k: Seq<u8>, v: V) -> Seq<(Seq<u8>, V)> {
    let i = insert_pos(d, k) as int;
    if i < d.len() && d[i].0 == k {
        d.update(i, (k, v))
    } else {
        d.insert(i, (k, v))
    }
}

/// The entries in key order, the last of equal keys winning.
pub open spec fn canonical<V>(d: Seq<(Seq<u8>, V)>) -> Seq<(Seq<u8>, V)>
    decreases d.len(),
{
    if d.len() == 0 {
        d
    } else {
        dict_insert(canonical(d.drop_last()), d.last().0, d.last().1)
    }
}

/// Keys strictly ascending: sorted and unique.
pub open spec fn strictly_sorted<V>(d: Seq<(Seq<u8>, V)>) -> bool {
    forall|i: int, j: int| 0 <= i < j < d.len() ==> key_lt(#[trigger] d[i].0, #[trigger] d[j].0)
}

/// Map keys are valid UTF-8 and strictly ascending, at every depth.
pub open spec fn well_formed(t: Term) -> bool
    decreases t,
{
    match t {
        Term::Int(i) => i64::MIN <= i <= i64::MAX,
        Term::Str(_) => true,
        Term::List(l) => forall|i: int| 0 <= i < l.len() ==> well_formed(#[trigger] l[i]),
        Term::Dict(d) => strictly_sorted(d) && forall|i: int|
            0 <= i < d.len() ==> utf8_decode(#[trigger] d[i].0) is Some && well_formed(d[i].1),
    }
}

pub open spec fn concat(s: Seq<Seq<u8>>) -> Seq<u8>
    decreases s.len(),
{
    if s.len() == 0 {
        Seq::empty()
    } else {
        concat(s.drop_last()) + s.last()
    }
}

/// `<length>:<bytes>`
pub open spec fn encode_str(s: Seq<u8>) -> Seq<u8> {
    nat_text(s.len()) + seq![58u8] + s
}

/// Each entry as its encoded key followed by its already-encoded value.
pub open spec fn entry_parts(d: Seq<(Seq<u8>, Seq<u8>)>) -> Seq<Seq<u8>> {
    Seq::new(d.len(), |i: int| encode_str(d[i].0) + d[i].1)
}

/// The encodings of list elements.
pub open spec fn list_parts(l: Seq<Term>) -> Seq<Seq<u8>>
    decreases l,
{
    Seq::new(l.len(), |i: int| if 0 <= i < l.len() { encode_term(l[i]) } else { Seq::empty() })
}

/// Map keys with the encodings of their values, in the map's own order.
pub open spec fn dict_pairs(d: Seq<(Seq<u8>, Term)>) -> Seq<(Seq<u8>, Seq<u8>)>
    decreases d,
{
    Seq::new(
        d.len(),
        |i: int|
            if 0 <= i < d.len() {
                (d[i].0, encode_term(d[i].1))
            } else {
                (Seq::empty(), Seq::empty())
            },
    )
}

/// The canonical encoding: map keys in ascending order.
pub open spec fn encode_term(t: Term) -> Seq<u8>
    decreases t,
{
    match t {
        Term::Int(i) => seq![105u8] + int_text(i) + seq![101u8],
        Term::Str(s) => encode_str(s),
        Term::List(l) => seq![108u8] + concat(list_parts(l)) + seq![101u8],
        Term::Dict(d) => seq![100u8] + concat(entry_parts(canonical(dict_pairs(d)))) + seq![101u8],
    }
}

// ---------------------------------------------------------------------------
// Decoding
/// Index of the first `c` at or after `from`.
pub open spec fn find_from(b: Seq<u8>, from: int, c: u8) -> Option<int>
    decreases b.len() - from,
{
    if from < 0 || from >= b.len() {
        None
    } else if b[from] == c {
        Some(from)
    } else {
        find_from(b, from + 1, c)
    }
}

pub proof fn lemma_find_from(b: Seq<u8>, from: int, c: u8)
    ensures
        find_from(b, from, c) matches Some(i) ==> from <= i < b.len() && b[i] == c && forall|
            j: int,
        | from <= j < i ==> b[j] != c,
        find_from(b, from, c) is None ==> forall|j: int| 0 <= from <= j < b.len() ==> b[j] != c,
    decreases b.len() - from,
{
    if 0 <= from < b.len() && b[from] != c {
        lemma_find_from(b, from + 1, c);
    }
}

/// `<digits>:<bytes>` at `pos`: the bytes and the position after them.
pub open spec fn parse_str_at(b: Seq<u8>, pos: int) -> Result<(Seq<u8>, int), CodecError> {
    match find_from(b, pos, 58u8) {
        None => Err(CodecError::MalformedString),
        Some(c) => {
            let digits = b.subrange(pos, c);
            if all_digits(digits) && c + 1 + digits_value(digits) <= b.len() {
                let end = c + 1 + digits_value(digits);
                Ok((b.subrange(c + 1, end), end))
            } else {
                Err(CodecError::MalformedString)
            }
        },
    }
}

/// `i<integer>e` at `pos`: the integer and the position after the `e`.
pub open spec fn parse_int_at(b: Seq<u8>, pos: int) -> Result<(int, int), CodecError> {
    match find_from(b, pos + 1, 101u8) {
        None => Err(CodecError::MalformedInteger),
        Some(e) => match int_text_value(b.subrange(pos + 1, e)) {
            Some(v) => Ok((v, e + 1)),
            None => Err(CodecError::MalformedInteger),
        },
    }
}

/// One value at `pos`: the value and the position after it.
pub open spec fn parse_value(b: Seq<u8>, pos: int) -> Result<(Term, int), CodecError>
    decreases b.len() - pos, 0int,
{
    if pos < 0 || pos >= b.len() {
        Err(CodecError::UnrecognizedTag)
    } else if b[pos] == 105u8 {
        match parse_int_at(b, pos) {
            Ok((v, e)) => Ok((Term::Int(v), e)),
            Err(x) => Err(x),
        }
    } else if is_digit(b[pos]) {
        match parse_str_at(b, pos) {
            Ok((s, e)) => Ok((Term::Str(s), e)),
            Err(x) => Err(x),
        }
    } else if b[pos] == 108u8 {
        match parse_list_items(b, pos + 1, Seq::empty()) {
            Ok((l, e)) => Ok((Term::List(l), e)),
            Err(x) => Err(x),
        }
    } else if b[pos] == 100u8 {
        match parse_dict_items(b, pos + 1, Seq::empty()) {
            Ok((d, e)) => Ok((Term::Dict(d), e)),
            Err(x) => Err(x),
        }
    } else {
        Err(CodecError::UnrecognizedTag)
    }
}

/// List elements from `pos` up to the closing `e`, after those in `acc`.
pub open spec fn parse_list_items(b: Seq<u8>, pos: int, acc: Seq<Term>) -> Result<
    (Seq<Term>, int),
    CodecError,
>
    decreases b.len() - pos, 1int,
{
    if pos < 0 || pos >= b.len() {
        Err(CodecError::UnterminatedList)
    } else if b[pos] == 101u8 {
        Ok((acc, pos + 1))
    } else {
        match parse_value(b, pos) {
            Err(x) => Err(x),
            Ok((t, end)) => if pos < end <= b.len() {
                parse_list_items(b, end, acc.push(t))
            } else {
                Err(CodecError::UnterminatedList)
            },
        }
    }
}

/// Map entries from `pos` up to the closing `e`, inserted into `acc`.
pub open spec fn parse_dict_items(b: Seq<u8>, pos: int, acc: Seq<(Seq<u8>, Term)>) -> Result<
    (Seq<(Seq<u8>, Term)>, int),
    CodecError,
>
    decreases b.len() - pos, 1int,
{
    if pos < 0 || pos >= b.len() {
        Err(CodecError::UnterminatedMap)
    } else if b[pos] == 101u8 {
        Ok((acc, pos + 1))
    } else if !is_digit(b[pos]) {
        Err(CodecError::InvalidMapKey)
    } else {
        match parse_str_at(b, pos) {
            Err(x) => Err(x),
            Ok((k, kend)) => if utf8_decode(k) is None {
                Err(CodecError::InvalidMapKey)
            } else if kend >= b.len() || b[kend] == 101u8 {
                Err(CodecError::UnterminatedMap)
            } else {
                proof {
                    lemma_find_from(b, pos, 58u8);
                }
                match parse_value(b, kend) {
                    Err(x) => Err(x),
                    Ok((v, end)) => if pos < end <= b.len() {
                        parse_dict_items(b, end, dict_insert(acc, k, v))
                    } else {
                        Err(CodecError::UnterminatedMap)
                    },
                }
            },
        }
    }
}

/// What `decode` gives for a buffer: the value that starts it.
pub open spec fn decode_spec(b: Seq<u8>) -> Result<Term, CodecError> {
    match parse_value(b, 0) {
        Ok((t, _)) => Ok(t),
        Err(x) => Err(x),
    }
}

fn find_byte(b: &[u8], from: usize, c: u8) -> (r: Option<usize>)
    requires
        from <= b@.len(),
    ensures
        match r {
            Some(i) => find_from(b@, from as int, c) == Some(i as int),
            None => find_from(b@, from as int, c) is None,
        },
{
    let mut i: usize = from;
    while i < b.len()
        invariant
            from <= i <= b@.len(),
            find_from(b@, from as int, c) == find_from(b@, i as int, c),
        decreases b@.len() - i,
    {
        if b[i] == c {
            return Some(i);
        }
        i = i + 1;
    }
    None
}

/// Whether `a` sorts before `b`, byte by byte.
pub fn keys_less(a: &[u8], b: &[u8]) -> (r: bool)
    ensures
        r == key_lt(a@, b@),
{
    let mut j: usize = 0;
    proof {
        assert(a@.skip(0) =~= a@);
        assert(b@.skip(0) =~= b@);
    }
    while j < a.len() && j < b.len()
        invariant
            j <= a@.len(),
            j <= b@.len(),
            key_lt(a@, b@) == key_lt(a@.skip(j as int), b@.skip(j as int)),
        decreases a@.len() - j,
    {
        if a[j] != b[j] {
            return a[j] < b[j];
        }
        proof {
            assert(a@.skip(j as int).drop_first() =~= a@.skip(j + 1));
            assert(b@.skip(j as int).drop_first() =~= b@.skip(j + 1));
        }
        j = j + 1;
    }
    j == a.len() && j < b.len()
}

pub(crate) fn bytes_equal(a: &[u8], b: &[u8]) -> (r: bool)
    ensures
        r == (a@ == b@),
{
    if a.len() != b.len() {
        return false;
    }
    let mut j: usize = 0;
    while j < a.len()
        invariant
            j <= a@.len() == b@.len(),
            a@.subrange(0, j as int) == b@.subrange(0, j as int),
        decreases a@.len() - j,
    {
        if a[j] != b[j] {
            assert(a@[j as int] != b@[j as int]);
            return false;
        }
        proof {
            assert(a@.subrange(0, j + 1) =~= a@.subrange(0, j as int).push(a@[j as int]));
            assert(b@.subrange(0, j + 1) =~= b@.subrange(0, j as int).push(b@[j as int]));
        }
        j = j + 1;
    }
    assert(a@ =~= a@.subrange(0, j as int));
    assert(b@ =~= b@.subrange(0, j as int));
    true
}

/// Puts `(k, v)` into entries sorted by key; an equal key has its value replaced.
pub(crate) fn insert_entry<V: View>(d: &mut Vec<(Vec<u8>, V)>, k: Vec<u8>, v: V)
    ensures
        entries(final(d)@) == dict_insert(entries(old(d)@), k@, v@),
{
    let ghost e = entries(d@);
    let mut i: usize = 0;
    proof {
        assert(e.skip(0) =~= e);
    }
    while i < d.len() && keys_less(d[i].0.as_slice(), k.as_slice())
        invariant
            i <= d@.len(),
            e == entries(d@),
            insert_pos(e, k@) == i + insert_pos(e.skip(i as int), k@),
        decreases d@.len() - i,
    {
        proof {
            assert(e.skip(i as int).drop_first() =~= e.skip(i + 1));
            assert(e.skip(i as int)[0] == e[i as int]);
        }
        i = i + 1;
    }
    proof {
        if i < d@.len() {
            assert(e.skip(i as int)[0] == e[i as int]);
        }
    }
    if i < d.len() && bytes_equal(d[i].0.as_slice(), k.as_slice()) {
        d.remove(i);
        d.insert(i, (k, v));
        proof {
            assert(entries(final(d)@) =~= e.update(i as int, (k@, v@)));
        }
    } else {
        d.insert(i, (k, v));
        proof {
            assert(entries(final(d)@) =~= e.insert(i as int, (k@, v@)));
        }
    }
}

fn parse_str(b: &[u8], pos: usize) -> (r: Result<(Vec<u8>, usize), CodecError>)
    requires
        pos <= b@.len(),
    ensures
        match r {
            Ok((s, e)) => parse_str_at(b@, pos as int) == Ok::<_, CodecError>((s@, e as int)) && pos < e <= b@.len(),
            Err(x) => parse_str_at(b@, pos as int) == Err::<(Seq<u8>, int), CodecError>(x),
        },
{
    let colon = match find_byte(b, pos, 58u8) {
        Some(c) => c,
        None => return Err(CodecError::MalformedString),
    };
    proof {
        lemma_find_from(b@, pos as int, 58u8);
    }
    let len = match parse_digits(b, pos, colon, (b.len() - colon - 1) as u64) {
        Some(n) => n as usize,
        None => return Err(CodecError::MalformedString),
    };
    let end = colon + 1 + len;
    let mut out: Vec<u8> = Vec::new();
    let mut i: usize = colon + 1;
    while i < end
        invariant
            colon + 1 <= i <= end <= b@.len(),
            out@ == b@.subrange(colon + 1, i as int),
        decreases end - i,
    {
        out.push(b[i]);
        proof {
            assert(out@ =~= b@.subrange(colon + 1, i + 1));
        }
        i = i + 1;
    }
    Ok((out, end))
}

fn parse_int(b: &[u8], pos: usize) -> (r: Result<(i64, usize), CodecError>)
    requires
        pos < b@.len(),
    ensures
        match r {
            Ok((v, e)) => parse_int_at(b@, pos as int) == Ok::<_, CodecError>((v as int, e as int)) && pos < e
                <= b@.len(),
            Err(x) => parse_int_at(b@, pos as int) == Err::<(int, int), CodecError>(x),
        },
{
    let n = b.len();
    let e = match find_byte(b, pos + 1, 101u8) {
        Some(e) => e,
        None => return Err(CodecError::MalformedInteger),
    };
    proof {
        lemma_find_from(b@, pos + 1, 101u8);
    }
    match parse_int_text(b, pos + 1, e) {
        Some(v) => Ok((v, e + 1)),
        None => Err(CodecError::MalformedInteger),
    }
}

fn parse_bencode(b: &[u8], pos: usize) -> (r: Result<(Value, usize), CodecError>)
    requires
        pos <= b@.len(),
    ensures
        match r {
            Ok((v, e)) => parse_value(b@, pos as int) == Ok::<_, CodecError>((v@, e as int)) && pos < e <= b@.len(),
            Err(x) => parse_value(b@, pos as int) == Err::<(Term, int), CodecError>(x),
        },
    decreases b@.len() - pos, 1int,
{
    if pos >= b.len() {
        return Err(CodecError::UnrecognizedTag);
    }
    let c = b[pos];
    if c == 105u8 {
        match parse_int(b, pos) {
            Ok((v, e)) => Ok((Value::Int(v), e)),
            Err(x) => Err(x),
        }
    } else if 48u8 <= c && c <= 57u8 {
        match parse_str(b, pos) {
            Ok((s, e)) => Ok((Value::Str(s), e)),
            Err(x) => Err(x),
        }
    } else if c == 108u8 {
        parse_list(b, pos)
    } else if c == 100u8 {
        parse_dict(b, pos)
    } else {
        Err(CodecError::UnrecognizedTag)
    }
}

fn parse_list(b: &[u8], pos: usize) -> (r: Result<(Value, usize), CodecError>)
    requires
        pos < b@.len(),
        b@[pos as int] == 108u8,
    ensures
        match r {
            Ok((v, e)) => parse_value(b@, pos as int) == Ok::<_, CodecError>((v@, e as int)) && pos < e <= b@.len(),
            Err(x) => parse_value(b@, pos as int) == Err::<(Term, int), CodecError>(x),
        },
    decreases b@.len() - pos, 0int,
{
    let n = b.len();
    let mut items: Vec<Value> = Vec::new();
    let mut p: usize = pos + 1;
    proof {
        assert(terms(items@) =~= Seq::empty());
    }
    loop
        invariant
            pos < p <= b@.len(),
            b@[pos as int] == 108u8,
            parse_list_items(b@, pos + 1, Seq::empty()) == parse_list_items(b@, p as int, terms(items@)),
        decreases b@.len() - p,
    {
        if p >= b.len() {
            return Err(CodecError::UnterminatedList);
        }
        if b[p] == 101u8 {
            proof {
                lemma_list_view(items);
            }
            return Ok((Value::List(items), p + 1));
        }
        match parse_bencode(b, p) {
            Err(x) => return Err(x),
            Ok((v, e)) => {
                proof {
                    assert(terms(items@.push(v)) =~= terms(items@).push(v@));
                }
                items.push(v);
                p = e;
            },
        }
    }
}

fn parse_dict(b: &[u8], pos: usize) -> (r: Result<(Value, usize), CodecError>)
    requires
        pos < b@.len(),
        b@[pos as int] == 100u8,
    ensures
        match r {
            Ok((v, e)) => parse_value(b@, pos as int) == Ok::<_, CodecError>((v@, e as int)) && pos < e <= b@.len(),
            Err(x) => parse_value(b@, pos as int) == Err::<(Term, int), CodecError>(x),
        },
    decreases b@.len() - pos, 0int,
{
    let n = b.len();
    let mut items: Vec<(Vec<u8>, Value)> = Vec::new();
    let mut p: usize = pos + 1;
    proof {
        assert(entries(items@) =~= Seq::<(Seq<u8>, Term)>::empty());
    }
    loop
        invariant
            pos < p <= b@.len(),
            b@[pos as int] == 100u8,
            parse_dict_items(b@, pos + 1, Seq::empty()) == parse_dict_items(b@, p as int, entries(items@)),
        decreases b@.len() - p,
    {
        if p >= b.len() {
            return Err(CodecError::UnterminatedMap);
        }
        let c = b[p];
        if c == 101u8 {
            proof {
                lemma_dict_view(items);
            }
            return Ok((Value::Dict(items), p + 1));
        }
        if c < 48u8 || c > 57u8 {
            return Err(CodecError::InvalidMapKey);
        }
        let (key, kend) = match parse_str(b, p) {
            Ok(x) => x,
            Err(x) => return Err(x),
        };
        if utf8_text(key.as_slice()).is_none() {
            return Err(CodecError::InvalidMapKey);
        }
        if kend >= b.len() || b[kend] == 101u8 {
            return Err(CodecError::UnterminatedMap);
        }
        match parse_bencode(b, kend) {
            Err(x) => return Err(x),
            Ok((v, e)) => {
                insert_entry(&mut items, key, v);
                p = e;
            },
        }
    }
}

/// Decodes the value at the start of `buffer`; bytes after it are left unread.
pub fn decode(buffer: &[u8]) -> (r: Result<Value, CodecError>)
    ensures
        match r {
            Ok(v) => decode_spec(buffer@) == Ok::<Term, CodecError>(v@),
            Err(x) => decode_spec(buffer@) == Err::<Term, CodecError>(x),
        },
        r matches Ok(v) ==> well_formed(v@),
{
    proof {
        crate::bencode_laws::lemma_decoded_well_formed(buffer@);
    }
    match parse_bencode(buffer, 0) {
        Ok((v, _)) => Ok(v),
        Err(x) => Err(x),
    }
}

// ---------------------------------------------------------------------------
// Encoding
/// Appends the bytes of `b`.
pub fn append_bytes(out: &mut Vec<u8>, b: &[u8])
    ensures
        final(out)@ == old(out)@ + b@,
{
    let mut i: usize = 0;
    while i < b.len()
        invariant
            i <= b@.len(),
            out@ == old(out)@ + b@.subrange(0, i as int),
        decreases b@.len() - i,
    {
        out.push(b[i]);
        i = i + 1;
        proof {
            assert(out@ =~= old(out)@ + b@.subrange(0, i as int));
        }
    }
    proof {
        assert(b@.subrange(0, i as int) =~= b@);
    }
}

fn copy_bytes(b: &[u8]) -> (r: Vec<u8>)
    ensures
        r@ == b@,
{
    let mut r: Vec<u8> = Vec::new();
    append_bytes(&mut r, b);
    proof {
        assert(r@ =~= b@);
    }
    r
}

fn write_str(out: &mut Vec<u8>, s: &[u8])
    ensures
        final(out)@ == old(out)@ + encode_str(s@),
{
    write_nat(out, s.len() as u64);
    out.push(58u8);
    append_bytes(out, s);
    proof {
        assert(final(out)@ =~= old(out)@ + encode_str(s@));
    }
}

fn encode_into(v: &Value, out: &mut Vec<u8>)
    ensures
        final(out)@ == old(out)@ + encode_term(v@),
    decreases v@,
{
    match v {
        Value::Int(i) => {
            out.push(105u8);
            write_int(out, *i);
            out.push(101u8);
            proof {
                assert(final(out)@ =~= old(out)@ + encode_term(v@));
            }
        },
        Value::Str(s) => {
            write_str(out, s.as_slice());
        },
        Value::List(l) => {
            proof {
                lemma_list_view(*l);
            }
            let ghost ts = terms(l@);
            let ghost parts = list_parts(ts);
            out.push(108u8);
            let ghost start = out@;
            let mut i: usize = 0;
            proof {
                assert(parts.take(0) =~= Seq::<Seq<u8>>::empty());
                assert(start + concat(parts.take(0)) =~= start);
            }
            while i < l.len()
                invariant
                    i <= l@.len() == ts.len() == parts.len(),
                    ts == terms(l@),
                    v@ == Term::List(ts),
                    parts == list_parts(ts),
                    out@ == start + concat(parts.take(i as int)),
                decreases l@.len() - i,
            {
                proof {
                    assert(l[i as int]@ == ts[i as int]);
                    assert(decreases_to!(v@ => v@->List_0));
                    assert(decreases_to!(ts => ts[i as int]));
                }
                encode_into(&l[i], out);
                proof {
                    assert(parts.take(i + 1).drop_last() =~= parts.take(i as int));
                    assert(out@ =~= start + concat(parts.take(i + 1)));
                }
                i = i + 1;
            }
            out.push(101u8);
            proof {
                assert(parts.take(i as int) =~= parts);
                assert(final(out)@ =~= old(out)@ + encode_term(v@));
            }
        },
        Value::Dict(d) => {
            proof {
                lemma_dict_view(*d);
            }
            let ghost ds = entries(d@);
            let ghost pairs = dict_pairs(ds);
            let mut sorted: Vec<(Vec<u8>, Vec<u8>)> = Vec::new();
            let mut i: usize = 0;
            proof {
                assert(pairs.take(0) =~= Seq::<(Seq<u8>, Seq<u8>)>::empty());
                assert(entries(sorted@) =~= Seq::<(Seq<u8>, Seq<u8>)>::empty());
            }
            while i < d.len()
                invariant
                    i <= d@.len() == ds.len() == pairs.len(),
                    ds == entries(d@),
                    v@ == Term::Dict(ds),
                    pairs == dict_pairs(ds),
                    entries(sorted@) == canonical(pairs.take(i as int)),
                decreases d@.len() - i,
            {
                let mut enc: Vec<u8> = Vec::new();
                proof {
                    assert(d[i as int].1@ == ds[i as int].1);
                    assert(decreases_to!(v@ => v@->Dict_0));
                    assert(decreases_to!(ds => ds[i as int]));
                    assert(decreases_to!(ds[i as int] => ds[i as int].1));
                }
                encode_into(&d[i].1, &mut enc);
                let key = copy_bytes(d[i].0.as_slice());
                insert_entry(&mut sorted, key, enc);
                proof {
                    assert(enc@ =~= encode_term(ds[i as int].1));
                    assert(pairs.take(i + 1).drop_last() =~= pairs.take(i as int));
                }
                i = i + 1;
            }
            proof {
                assert(pairs.take(i as int) =~= pairs);
            }
            out.push(100u8);
            let ghost start = out@;
            let ghost es = entry_parts(entries(sorted@));
            let mut j: usize = 0;
            proof {
                assert(es.take(0) =~= Seq::<Seq<u8>>::empty());
                assert(start + concat(es.take(0)) =~= start);
            }
            while j < sorted.len()
                invariant
                    j <= sorted@.len() == es.len(),
                    es == entry_parts(entries(sorted@)),
                    out@ == start + concat(es.take(j as int)),
                decreases sorted@.len() - j,
            {
                write_str(out, sorted[j].0.as_slice());
                append_bytes(out, sorted[j].1.as_slice());
                proof {
                    assert(es.take(j + 1).drop_last() =~= es.take(j as int));
                    assert(out@ =~= start + concat(es.take(j + 1)));
                }
                j = j + 1;
            }
            out.push(101u8);
            proof {
                assert(es.take(j as int) =~= es);
                assert(final(out)@ =~= old(out)@ + encode_term(v@));
            }
        },
    }
}

/// The canonical encoding of `value`: map entries in ascending key order,
/// the last of equal keys winning. It cannot fail.
pub fn to_vec_u8(value: &Value) -> (r: Result<Vec<u8>, CodecError>)
    ensures
        r matches Ok(b) && b@ == encode_term(value@),
{
    let mut out: Vec<u8> = Vec::new();
    encode_into(value, &mut out);
    proof {
        assert(out@ =~= encode_term(value@));
    }
    Ok(out)
}

} // verus!
