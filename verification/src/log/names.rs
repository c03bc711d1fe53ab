//! The names of segment files: the id in decimal, then `.bin`.

use crate::codec::decode_text;
use vstd::prelude::*;
use vstd::utf8::{encode_utf8, is_ascii_chars};

verus! {

/// The byte of the decimal digit `d`.
pub open spec fn digit(d: nat) -> u8 {
    (48 + d) as u8
}

/// The decimal digits of `n`, without leading zeros.
pub open spec fn decimal(n: nat) -> Seq<u8>
    decreases n,
{
    if n < 10 {
        seq![digit(n)]
    } else {
        decimal(n / 10).push(digit(n % 10))
    }
}

/// The extension of a segment file: `.bin`.
pub open spec fn extension() -> Seq<u8> {
    seq![46u8, 98u8, 105u8, 110u8]
}

/// The name of the file of segment `id`, as bytes.
pub open spec fn segment_name(id: u64) -> Seq<u8> {
    decimal(id as nat) + extension()
}

/// Whether the bytes are the name of a segment file.
pub open spec fn is_segment_name(name: Seq<u8>) -> bool {
    exists|id: u64| name == #[trigger] segment_name(id)
}

/// The id of the segment whose file has this name.
pub open spec fn named_id(name: Seq<u8>) -> u64 {
    choose|id: u64| name == #[trigger] segment_name(id)
}

/// Whether all bytes are decimal digits.
pub open spec fn is_digits(d: Seq<u8>) -> bool {
    forall|i: int| 0 <= i < d.len() ==> 48 <= #[trigger] d[i] <= 57
}

/// Whether the bytes are digits without a leading zero.
pub open spec fn canonical(d: Seq<u8>) -> bool {
    &&& d.len() >= 1
    &&& is_digits(d)
    &&& d.len() > 1 ==> d[0] != 48
}

/// The number that the digits stand for.
pub open spec fn value(d: Seq<u8>) -> nat
    decreases d.len(),
{
    if d.len() == 0 {
        0
    } else {
        (value(d.drop_last()) * 10 + (d.last() - 48)) as nat
    }
}

/// The digits of a number are digits without a leading zero, and stand for
/// the number.
proof fn lemma_decimal(n: nat)
    ensures
        canonical(decimal(n)),
        value(decimal(n)) == n,
    decreases n,
{
    if n < 10 {
        let d = decimal(n);
        assert(d.drop_last() =~= Seq::<u8>::empty());
        assert(value(d.drop_last()) == 0);
    } else {
        lemma_decimal(n / 10);
        let head = decimal(n / 10);
        let d = decimal(n);
        assert(d.drop_last() =~= head);
        assert(d.last() == digit(n % 10));
        assert(d[0] == head[0]);
        if head.len() == 1 {
            assert(head.drop_last() =~= Seq::<u8>::empty());
            assert(value(head.drop_last()) == 0);
        }
    }
}

/// Digits that do not start with a zero stand for a number above zero.
proof fn lemma_leading(d: Seq<u8>)
    requires
        is_digits(d),
        d.len() >= 1,
        d[0] != 48,
    ensures
        value(d) >= 1,
    decreases d.len(),
{
    if d.len() == 1 {
        assert(d.drop_last() =~= Seq::<u8>::empty());
        assert(value(d.drop_last()) == 0);
    } else {
        assert(d.drop_last()[0] == d[0]);
        lemma_leading(d.drop_last());
    }
}

/// Digits without a leading zero are the digits of the number that they
/// stand for.
proof fn lemma_canonical(d: Seq<u8>)
    requires
        canonical(d),
    ensures
        decimal(value(d)) == d,
    decreases d.len(),
{
    let head = d.drop_last();
    if d.len() == 1 {
        assert(head =~= Seq::<u8>::empty());
        assert(value(head) == 0);
        assert(decimal(value(d)) =~= d);
    } else {
        assert(head[0] == d[0]);
        lemma_canonical(head);
        lemma_leading(head);
        let v = value(d);
        assert(v / 10 == value(head));
        assert(v % 10 == d.last() - 48);
        assert(decimal(v) =~= d);
    }
}

/// The first digits of a number stand for no more than the number.
proof fn lemma_prefix_value(d: Seq<u8>, j: int)
    requires
        is_digits(d),
        0 <= j <= d.len(),
    ensures
        value(d.take(j)) <= value(d),
    decreases d.len(),
{
    if j < d.len() {
        assert(d.drop_last().take(j) =~= d.take(j));
        lemma_prefix_value(d.drop_last(), j);
    } else {
        assert(d.take(j) =~= d);
    }
}

/// A segment name is the digits of its id and the extension, and no other
/// id has the same name.
pub proof fn lemma_segment_name(name: Seq<u8>, id: u64)
    requires
        name == segment_name(id),
    ensures
        name.len() >= 5,
        name.subrange(name.len() - 4, name.len() as int) == extension(),
        canonical(name.take(name.len() - 4)),
        value(name.take(name.len() - 4)) == id,
        named_id(name) == id,
        is_segment_name(name),
{
    lemma_decimal(id as nat);
    let d = decimal(id as nat);
    assert(name.subrange(name.len() - 4, name.len() as int) =~= extension());
    assert(name.take(name.len() - 4) =~= d);
    let other = named_id(name);
    lemma_decimal(other as nat);
    assert(name.take(name.len() - 4) =~= decimal(other as nat));
}

/// The id of the segment whose file has this name; `None` for the name of
/// any other file. A name with leading zeros, a sign, or an id that does not
/// fit is the name of another file.
pub fn segment_id(name: &str) -> (r: Option<u64>)
    ensures
        match r {
            Some(id) => encode_utf8(name@) == segment_name(id),
            None => !is_segment_name(encode_utf8(name@)),
        },
{
    let b = name.as_bytes();
    let len = b.len();
    if len < 5 {
        proof {
            assert forall|id: u64| b@ != #[trigger] segment_name(id) by {
                if b@ == segment_name(id) {
                    lemma_segment_name(b@, id);
                }
            }
        }
        return None;
    }
    let n = len - 4;
    let ghost d = b@.take(n as int);
    if b[n] != 46 || b[n + 1] != 98 || b[n + 2] != 105 || b[n + 3] != 110 {
        proof {
            assert forall|id: u64| b@ != #[trigger] segment_name(id) by {
                if b@ == segment_name(id) {
                    lemma_segment_name(b@, id);
                    let e = b@.subrange(len - 4, len as int);
                    assert(e[0] == b@[n as int] && e[1] == b@[n + 1] && e[2] == b@[n + 2] && e[3]
                        == b@[n + 3]);
                }
            }
        }
        return None;
    }
    if n > 1 && b[0] == 48 {
        proof {
            assert forall|id: u64| b@ != #[trigger] segment_name(id) by {
                if b@ == segment_name(id) {
                    lemma_segment_name(b@, id);
                    assert(d[0] == b@[0]);
                }
            }
        }
        return None;
    }
    let mut acc: u64 = 0;
    let mut i: usize = 0;
    proof {
        assert(d.take(0) =~= Seq::<u8>::empty());
    }
    while i < n
        invariant
            i <= n,
            n == len - 4,
            len == b@.len(),
            b@ == encode_utf8(name@),
            d == b@.take(n as int),
            is_digits(d.take(i as int)),
            acc == value(d.take(i as int)),
        decreases n - i,
    {
        let c = b[i];
        let ghost next = d.take(i + 1);
        proof {
            assert(next.drop_last() =~= d.take(i as int));
            assert(next.last() == c);
        }
        if c < 48 || c > 57 {
            proof {
                assert forall|id: u64| b@ != #[trigger] segment_name(id) by {
                    if b@ == segment_name(id) {
                        lemma_segment_name(b@, id);
                        assert(d[i as int] == c);
                    }
                }
            }
            return None;
        }
        let digit = (c - 48) as u64;
        let grown = match acc.checked_mul(10) {
            Some(m) => m.checked_add(digit),
            None => None,
        };
        match grown {
            Some(v) => {
                acc = v;
            },
            None => {
                proof {
                    assert(value(next) > u64::MAX);
                    assert forall|id: u64| b@ != #[trigger] segment_name(id) by {
                        if b@ == segment_name(id) {
                            lemma_segment_name(b@, id);
                            lemma_prefix_value(d, i + 1);
                        }
                    }
                }
                return None;
            },
        }
        proof {
            assert forall|k: int| 0 <= k < next.len() implies 48 <= #[trigger] next[k] <= 57 by {
                if k < i {
                    assert(next[k] == d.take(i as int)[k]);
                }
            }
        }
        i += 1;
    }
    proof {
        assert(d.take(n as int) =~= d);
        assert(d[0] == b@[0]);
        lemma_canonical(d);
        let e = b@.subrange(n as int, len as int);
        assert(e =~= extension());
        assert(b@ =~= d + e);
    }
    Some(acc)
}

/// Appends the decimal digits of `n`.
fn push_decimal(out: &mut Vec<u8>, n: u64)
    ensures
        final(out)@ == old(out)@ + decimal(n as nat),
    decreases n,
{
    if n >= 10 {
        push_decimal(out, n / 10);
    }
    let ghost head = out@;
    out.push(48 + (n % 10) as u8);
    proof {
        if n >= 10 {
            assert(out@ =~= old(out)@ + decimal(n as nat));
        } else {
            assert(out@ =~= old(out)@ + decimal(n as nat));
        }
    }
}

/// The name of the file of segment `id`.
pub fn segment_file_name(id: u64) -> (name: String)
    ensures
        encode_utf8(name@) == segment_name(id),
{
    let mut bytes: Vec<u8> = Vec::new();
    push_decimal(&mut bytes, id);
    bytes.push(46);
    bytes.push(98);
    bytes.push(105);
    bytes.push(110);
    let name = decode_text(bytes.as_slice());
    proof {
        assert(bytes@ =~= segment_name(id));
        lemma_decimal(id as nat);
        let chars = Seq::new(bytes@.len(), |i: int| bytes@[i] as char);
        assert(is_ascii_chars(chars)) by {
            assert forall|i: int| 0 <= i < chars.len() implies '\0' <= #[trigger] chars[i]
                <= '\u{7f}' by {
                if i < bytes@.len() - 4 {
                    assert(bytes@[i] == decimal(id as nat)[i]);
                } else {
                    assert(bytes@[i] == extension()[i - (bytes@.len() - 4)]);
                }
            }
        }
        vstd::utf8::is_ascii_chars_encode_utf8(chars);
        assert(encode_utf8(chars) =~= bytes@);
        vstd::utf8::encode_utf8_valid_utf8(chars);
        vstd::utf8::encode_utf8_decode_utf8(chars);
    }
    name
}

} // verus!
