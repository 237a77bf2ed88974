use vstd::prelude::*;

use crate::model::ConnId;

verus! {

/// Why a request carries no usable connection id.
#[derive(Clone, Copy, PartialEq, Eq, Debug, Structural)]
pub enum ConnIdError {
    /// There is no `Conn-Id` header.
    Missing,
    /// The header is not a decimal number that fits a connection id.
    Invalid,
}

/// The number that the decimal digits `d` spell.
pub open spec fn decimal_value(d: Seq<u8>) -> int
    decreases d.len(),
{
    if d.len() == 0 {
        0
    } else {
        decimal_value(d.drop_last()) * 10 + (d.last() - 48)
    }
}

/// Every byte of `d` is an ASCII digit.
pub open spec fn all_digits(d: Seq<u8>) -> bool {
    forall|i: int| 0 <= i < d.len() ==> 48 <= #[trigger] d[i] <= 57
}

/// The digits of a header value: all of it, or what follows one leading `+`.
pub open spec fn digits_of(v: Seq<u8>) -> Seq<u8> {
    if v.len() > 0 && v[0] == 43 {
        v.drop_first()
    } else {
        v
    }
}

/// `v` is a non-empty run of decimal digits, optionally after one `+`,
/// whose value fits a connection id.
pub open spec fn valid_conn_id(v: Seq<u8>) -> bool {
    let d = digits_of(v);
    d.len() > 0 && all_digits(d) && decimal_value(d) <= usize::MAX
}

proof fn lemma_decimal_value_nonneg(d: Seq<u8>)
    requires
        all_digits(d),
    ensures
        decimal_value(d) >= 0,
    decreases d.len(),
{
    if d.len() > 0 {
        lemma_decimal_value_nonneg(d.drop_last());
    }
}

/// Reads the connection id of a request from its `Conn-Id` header, given
/// as raw bytes when present.
pub fn conn_id_from_header(header: Option<&[u8]>) -> (r: Result<ConnId, ConnIdError>)
    ensures
        match header {
            None => r == Err::<ConnId, ConnIdError>(ConnIdError::Missing),
            Some(v) => if valid_conn_id(v@) {
                r is Ok && r->Ok_0 as int == decimal_value(digits_of(v@))
            } else {
                r == Err::<ConnId, ConnIdError>(ConnIdError::Invalid)
            },
        },
{
    let v = match header {
        None => {
            return Err(ConnIdError::Missing);
        },
        Some(v) => v,
    };
    let n = v.len();
    let start: usize = if n > 0 && v[0] == 43 {
        1
    } else {
        0
    };
    let ghost d = digits_of(v@);
    assert(d =~= v@.subrange(start as int, n as int));
    if start == n {
        return Err(ConnIdError::Invalid);
    }
    let mut value: usize = 0;
    let mut i: usize = start;
    while i < n
        invariant
            start <= i <= n,
            n == v@.len(),
            d == v@.subrange(start as int, n as int),
            d == digits_of(v@),
            header == Some(v),
            all_digits(v@.subrange(start as int, i as int)),
            value as int == decimal_value(v@.subrange(start as int, i as int)),
        decreases n - i,
    {
        let b = v[i];
        let ghost prefix = v@.subrange(start as int, i as int);
        let ghost next = v@.subrange(start as int, i + 1);
        assert(next.drop_last() =~= prefix);
        if b < 48 || b > 57 {
            assert(d[i - start] == b);
            assert(!all_digits(d));
            assert(!valid_conn_id(v@));
            return Err(ConnIdError::Invalid);
        }
        let digit = (b - 48) as usize;
        if value > (usize::MAX - digit) / 10 {
            proof {
                // every further digit only makes the number larger
                lemma_value_grows(d, (i - start) as int + 1);
                assert(d.subrange(0, (i - start) as int + 1) =~= next);
                assert(value * 10 + digit > usize::MAX) by (nonlinear_arith)
                    requires
                        value > (usize::MAX - digit) / 10,
                        digit <= 9,
                ;
                assert(next.last() == b);
                assert(decimal_value(next) == decimal_value(prefix) * 10 + (b - 48));
                assert(all_digits(d) ==> decimal_value(d) > usize::MAX);
                assert(!valid_conn_id(v@));
            }
            return Err(ConnIdError::Invalid);
        }
        proof {
            assert(value * 10 + digit <= usize::MAX) by (nonlinear_arith)
                requires
                    value <= (usize::MAX - digit) / 10,
                    digit <= 9,
            ;
        }
        value = value * 10 + digit;
        i = i + 1;
    }
    assert(v@.subrange(start as int, n as int) == d);
    Ok(value)
}

/// A longer run of digits never spells a smaller number than its prefix.
proof fn lemma_value_grows(d: Seq<u8>, k: int)
    requires
        0 <= k <= d.len(),
    ensures
        all_digits(d) ==> decimal_value(d.subrange(0, k)) <= decimal_value(d),
    decreases d.len() - k,
{
    if k < d.len() && all_digits(d) {
        lemma_value_grows(d, k + 1);
        let a = d.subrange(0, k);
        let b = d.subrange(0, k + 1);
        assert(b.drop_last() =~= a);
        assert(all_digits(a));
        lemma_decimal_value_nonneg(a);
        assert(decimal_value(b) == decimal_value(a) * 10 + (b.last() - 48));
        assert(b[k] == d[k]);
        assert(decimal_value(a) <= decimal_value(b)) by (nonlinear_arith)
            requires
                decimal_value(b) == decimal_value(a) * 10 + (b.last() - 48),
                decimal_value(a) >= 0,
                b.last() >= 48,
        ;
    }
    if k == d.len() {
        assert(d.subrange(0, k) =~= d);
    }
}

} // verus!
