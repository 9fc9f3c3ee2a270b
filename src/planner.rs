//! Splits a transfer into pieces and each piece into request-sized blocks.
use vstd::prelude::*;

verus! {

/// The size of a block request, 16 KiB.
pub const BLOCK_SIZE: u32 = 16384;

/// Why a plan cannot be made.
#[derive(Debug, Clone, Copy, PartialEq, Eq, Structural)]
pub enum PlanError {
    /// The piece length or the block size is zero.
    InvalidGeometry,
    /// The piece index is not below the piece count.
    NoSuchPiece,
}

/// How many parts of at most `part` units cover `whole` units.
pub open spec fn ceil_div(whole: int, part: int) -> int {
    (whole + part - 1) / part
}

pub open spec fn min(a: int, b: int) -> int {
    if a <= b {
        a
    } else {
        b
    }
}

/// Number of pieces of a transfer.
pub open spec fn piece_count(total_length: int, piece_length: int) -> int {
    ceil_div(total_length, piece_length)
}

/// Size of piece `index`: the piece length, except for the last piece,
/// which holds what remains.
pub open spec fn piece_size(total_length: int, piece_length: int, index: int) -> int {
    min(piece_length, total_length - index * piece_length)
}

/// The blocks `(begin, length)` of a piece of `size` bytes, in order: each
/// `block_size` long but the last, which holds what remains.
pub open spec fn blocks(size: int, block_size: int) -> Seq<(u32, u32)> {
    Seq::new(
        ceil_div(size, block_size) as nat,
        |k: int| ((k * block_size) as u32, min(block_size, size - k * block_size) as u32),
    )
}

/// The plan of piece `index`, or why there is none.
pub open spec fn plan_spec(total_length: int, piece_length: int, block_size: int, index: int) -> Result<
    Seq<(u32, u32)>,
    PlanError,
> {
    if piece_length == 0 || block_size == 0 {
        Err(PlanError::InvalidGeometry)
    } else if index >= piece_count(total_length, piece_length) {
        Err(PlanError::NoSuchPiece)
    } else {
        Ok(blocks(piece_size(total_length, piece_length, index), block_size))
    }
}

/// `k` parts come before the end exactly when `k * part < whole`.
pub proof fn lemma_ceil_div(k: int, whole: int, part: int)
    requires
        part > 0,
        whole >= 0,
        k >= 0,
    ensures
        k < ceil_div(whole, part) <==> k * part < whole,
        ceil_div(whole, part) >= 0,
{
    let c = ceil_div(whole, part);
    let n = whole + part - 1;
    assert(n == part * (n / part) + n % part) by {
        vstd::arithmetic::div_mod::lemma_fundamental_div_mod(n, part);
    }
    assert(0 <= n % part < part) by {
        vstd::arithmetic::div_mod::lemma_mod_bound(n, part);
    }
    assert(c >= 0) by {
        vstd::arithmetic::div_mod::lemma_div_pos_is_pos(n, part);
    }
    if k < c {
        assert(k * part <= (c - 1) * part) by (nonlinear_arith)
            requires
                k <= c - 1,
                part > 0,
        ;
        assert((c - 1) * part == c * part - part) by (nonlinear_arith);
    } else {
        assert(k * part >= c * part) by (nonlinear_arith)
            requires
                k >= c,
                part > 0,
        ;
    }
}

/// The number of pieces of a transfer, `ceil(total_length / piece_length)`.
pub fn count_pieces(total_length: u64, piece_length: u32) -> (r: Result<u64, PlanError>)
    ensures
        piece_length == 0 ==> r == Err::<u64, PlanError>(PlanError::InvalidGeometry),
        piece_length > 0 ==> r == Ok::<u64, PlanError>(
            piece_count(total_length as int, piece_length as int) as u64,
        ),
        piece_length > 0 ==> piece_count(total_length as int, piece_length as int) <= u64::MAX,
{
    if piece_length == 0 {
        return Err(PlanError::InvalidGeometry);
    }
    let pl = piece_length as u64;
    let q = total_length / pl;
    proof {
        vstd::arithmetic::div_mod::lemma_fundamental_div_mod(total_length as int, pl as int);
        if total_length % pl > 0 {
            assert(q < u64::MAX) by (nonlinear_arith)
                requires
                    total_length == pl * q + total_length % pl,
                    total_length % pl > 0,
                    pl >= 1,
                    q >= 0,
                    total_length <= u64::MAX,
            ;
        }
    }
    let c = if total_length % pl > 0 {
        q + 1
    } else {
        q
    };
    proof {
        let t = total_length as int;
        let p = pl as int;
        vstd::arithmetic::div_mod::lemma_fundamental_div_mod(t, p);
        vstd::arithmetic::div_mod::lemma_fundamental_div_mod(t + p - 1, p);
        vstd::arithmetic::div_mod::lemma_mod_bound(t, p);
        vstd::arithmetic::div_mod::lemma_mod_bound(t + p - 1, p);
        let cc = ceil_div(t, p);
        if t % p > 0 {
            assert(t + p - 1 == (q + 1) * p + (t % p - 1)) by (nonlinear_arith)
                requires
                    t == p * q + t % p,
            ;
            vstd::arithmetic::div_mod::lemma_fundamental_div_mod_converse(t + p - 1, p, q + 1, t % p - 1);
        } else {
            assert(t + p - 1 == q * p + (p - 1)) by (nonlinear_arith)
                requires
                    t == p * q + t % p,
                    t % p == 0,
            ;
            vstd::arithmetic::div_mod::lemma_fundamental_div_mod_converse(t + p - 1, p, q as int, p - 1);
        }
    }
    Ok(c)
}

/// The blocks of piece `piece_index` of a transfer of `total_length` bytes
/// cut into pieces of `piece_length` bytes, as `(begin, length)` pairs.
pub fn plan(total_length: u64, piece_length: u32, block_size: u32, piece_index: u32) -> (r: Result<
    Vec<(u32, u32)>,
    PlanError,
>)
    ensures
        match plan_spec(total_length as int, piece_length as int, block_size as int, piece_index as int) {
            Ok(s) => (r matches Ok(v) && v@ == s),
            Err(e) => r == Err::<Vec<(u32, u32)>, PlanError>(e),
        },
{
    let count = count_pieces(total_length, piece_length)?;
    if block_size == 0 {
        return Err(PlanError::InvalidGeometry);
    }
    if piece_index as u64 >= count {
        return Err(PlanError::NoSuchPiece);
    }
    let pl = piece_length as u64;
    let bs = block_size as u64;
    proof {
        lemma_ceil_div(piece_index as int, total_length as int, pl as int);
        assert(piece_index as int * pl <= u64::MAX) by (nonlinear_arith)
            requires
                piece_index as int * pl < total_length,
                total_length <= u64::MAX,
        ;
    }
    let start = piece_index as u64 * pl;
    let rest = total_length - start;
    let size: u64 = if rest < pl {
        rest
    } else {
        pl
    };
    let ghost s = size as int;
    let ghost want = blocks(s, bs as int);
    let mut out: Vec<(u32, u32)> = Vec::new();
    let mut begin: u64 = 0;
    let mut k: u64 = 0;
    proof {
        assert(want.take(0) =~= Seq::<(u32, u32)>::empty());
        lemma_ceil_div(0, s, bs as int);
    }
    while begin < size
        invariant
            s == size as int,
            size <= pl <= u32::MAX,
            0 < bs <= u32::MAX,
            want == blocks(s, bs as int),
            begin as int == k as int * bs,
            k as int <= ceil_div(s, bs as int),
            k as int <= ceil_div(s, bs as int) ==> (k < ceil_div(s, bs as int) <==> begin < size),
            out@ == want.take(k as int),
        decreases ceil_div(s, bs as int) - k,
    {
        proof {
            lemma_ceil_div(k as int, s, bs as int);
        }
        let left = size - begin;
        let len: u64 = if left < bs {
            left
        } else {
            bs
        };
        out.push((begin as u32, len as u32));
        proof {
            assert(want[k as int] == (begin as u32, len as u32));
            assert(out@ =~= want.take(k + 1));
            lemma_ceil_div(k + 1, s, bs as int);
            assert((k + 1) * bs == k * bs + bs) by (nonlinear_arith);
        }
        begin = begin + bs;
        k = k + 1;
    }
    proof {
        lemma_ceil_div(k as int, s, bs as int);
        assert(out@ =~= want);
    }
    Ok(out)
}

/// Every piece index of a transfer, ascending; `NoSuchPiece` when some
/// index would not fit in 32 bits.
pub fn all_pieces(total_length: u64, piece_length: u32) -> (r: Result<Vec<u32>, PlanError>)
    ensures
        piece_length == 0 ==> r == Err::<Vec<u32>, PlanError>(PlanError::InvalidGeometry),
        piece_length > 0 && piece_count(total_length as int, piece_length as int) > u32::MAX + 1
            ==> r == Err::<Vec<u32>, PlanError>(PlanError::NoSuchPiece),
        piece_length > 0 && piece_count(total_length as int, piece_length as int) <= u32::MAX + 1
            ==> (r matches Ok(v) && v@ == Seq::new(
            piece_count(total_length as int, piece_length as int) as nat,
            |i: int| i as u32,
        )),
{
    let count = count_pieces(total_length, piece_length)?;
    if count > 4294967296u64 {
        return Err(PlanError::NoSuchPiece);
    }
    let mut out: Vec<u32> = Vec::new();
    let mut i: u64 = 0;
    while i < count
        invariant
            count <= 4294967296u64,
            i <= count,
            out@ == Seq::new(i as nat, |j: int| j as u32),
        decreases count - i,
    {
        out.push(i as u32);
        i = i + 1;
        proof {
            assert(out@ =~= Seq::new(i as nat, |j: int| j as u32));
        }
    }
    Ok(out)
}

} // verus!
