use vstd::prelude::*;

verus! {

/// Whether `a` comes before `b` in the order of byte strings: at the first
/// place where they differ `a` holds the lower byte, or `a` ends there.
pub open spec fn bytes_lt(a: Seq<u8>, b: Seq<u8>) -> bool
    decreases a.len(),
{
    if b.len() == 0 {
        false
    } else if a.len() == 0 {
        true
    } else if a[0] != b[0] {
        a[0] < b[0]
    } else {
        bytes_lt(a.drop_first(), b.drop_first())
    }
}

/// The four bytes of `value`, the most significant first.
pub open spec fn be_bytes(value: u32) -> Seq<u8> {
    seq![
        (value / 0x100_0000) as u8,
        (value / 0x1_0000 % 0x100) as u8,
        (value / 0x100 % 0x100) as u8,
        (value % 0x100) as u8,
    ]
}

/// The four bytes of `value`, the most significant first.
pub(crate) fn u32_to_be_bytes(value: u32) -> (bytes: Vec<u8>)
    ensures
        bytes@ == be_bytes(value),
{
    let mut bytes: Vec<u8> = Vec::with_capacity(4);
    bytes.push((value / 0x100_0000) as u8);
    bytes.push((value / 0x1_0000 % 0x100) as u8);
    bytes.push((value / 0x100 % 0x100) as u8);
    bytes.push((value % 0x100) as u8);
    assert(bytes@ =~= be_bytes(value));
    bytes
}

/// No byte string comes before itself.
pub proof fn lemma_bytes_lt_irreflexive(a: Seq<u8>)
    ensures
        !bytes_lt(a, a),
    decreases a.len(),
{
    if a.len() > 0 {
        lemma_bytes_lt_irreflexive(a.drop_first());
    }
}

/// The order of byte strings is transitive.
pub proof fn lemma_bytes_lt_transitive(a: Seq<u8>, b: Seq<u8>, c: Seq<u8>)
    requires
        bytes_lt(a, b),
        bytes_lt(b, c),
    ensures
        bytes_lt(a, c),
    decreases a.len(),
{
    if a.len() > 0 && a[0] == b[0] && b[0] == c[0] {
        lemma_bytes_lt_transitive(a.drop_first(), b.drop_first(), c.drop_first());
    }
}

/// Of two different byte strings one comes before the other.
pub proof fn lemma_bytes_lt_total(a: Seq<u8>, b: Seq<u8>)
    ensures
        a == b || bytes_lt(a, b) || bytes_lt(b, a),
    decreases a.len(),
{
    if a.len() == 0 || b.len() == 0 {
        if a.len() == 0 && b.len() == 0 {
            assert(a =~= b);
        }
    } else if a[0] == b[0] {
        lemma_bytes_lt_total(a.drop_first(), b.drop_first());
        if a.drop_first() == b.drop_first() {
            assert(a =~= seq![a[0]] + a.drop_first());
            assert(b =~= seq![b[0]] + b.drop_first());
        }
    }
}

/// An integer is made of its four bytes.
proof fn lemma_be_bytes_value(a: u32)
    ensures
        a == (a / 0x100_0000) * 0x100_0000 + (a / 0x1_0000 % 0x100) * 0x1_0000 + (a / 0x100 % 0x100)
            * 0x100 + a % 0x100,
        a / 0x100_0000 < 0x100,
{
    assert(a == (a / 0x100_0000) * 0x100_0000 + (a / 0x1_0000 % 0x100) * 0x1_0000 + (a / 0x100
        % 0x100) * 0x100 + a % 0x100) by (bit_vector);
    assert(a / 0x100_0000 < 0x100) by (bit_vector);
}

/// Big-endian bytes are ordered as the integers they stand for.
pub proof fn lemma_be_bytes_order(a: u32, b: u32)
    ensures
        bytes_lt(be_bytes(a), be_bytes(b)) <==> a < b,
        be_bytes(a) == be_bytes(b) <==> a == b,
{
    let x = be_bytes(a);
    let y = be_bytes(b);
    let x1 = x.drop_first();
    let y1 = y.drop_first();
    let x2 = x1.drop_first();
    let y2 = y1.drop_first();
    let x3 = x2.drop_first();
    let y3 = y2.drop_first();
    assert(x3.drop_first().len() == 0 && y3.drop_first().len() == 0);
    assert(x1[0] == x[1] && x2[0] == x[2] && x3[0] == x[3]);
    assert(y1[0] == y[1] && y2[0] == y[2] && y3[0] == y[3]);
    assert(!bytes_lt(x3.drop_first(), y3.drop_first()));
    assert(bytes_lt(x3, y3) <==> x[3] < y[3]);
    assert(bytes_lt(x2, y2) <==> (x[2] < y[2] || (x[2] == y[2] && x[3] < y[3])));
    assert(bytes_lt(x1, y1) <==> (x[1] < y[1] || (x[1] == y[1] && bytes_lt(x2, y2))));
    assert(bytes_lt(x, y) <==> (x[0] < y[0] || (x[0] == y[0] && bytes_lt(x1, y1))));
    lemma_be_bytes_value(a);
    lemma_be_bytes_value(b);
    let a0 = (a / 0x100_0000) as int;
    let a1 = (a / 0x1_0000 % 0x100) as int;
    let a2 = (a / 0x100 % 0x100) as int;
    let a3 = (a % 0x100) as int;
    let b0 = (b / 0x100_0000) as int;
    let b1 = (b / 0x1_0000 % 0x100) as int;
    let b2 = (b / 0x100 % 0x100) as int;
    let b3 = (b % 0x100) as int;
    assert(x[0] == a0 && x[1] == a1 && x[2] == a2 && x[3] == a3);
    assert(y[0] == b0 && y[1] == b1 && y[2] == b2 && y[3] == b3);
    assert(a == a0 * 0x100_0000 + a1 * 0x1_0000 + a2 * 0x100 + a3);
    assert(b == b0 * 0x100_0000 + b1 * 0x1_0000 + b2 * 0x100 + b3);
    if x == y {
        assert(x[0] == y[0] && x[1] == y[1] && x[2] == y[2] && x[3] == y[3]);
    }
}

/// Whether `a` comes before `b` in the order of byte strings.
pub fn bytes_before(a: &[u8], b: &[u8]) -> (before: bool)
    ensures
        before == bytes_lt(a@, b@),
{
    let mut i: usize = 0;
    assert(a@.skip(0) =~= a@ && b@.skip(0) =~= b@);
    while i < a.len() && i < b.len()
        invariant
            i <= a@.len(),
            i <= b@.len(),
            bytes_lt(a@, b@) == bytes_lt(a@.skip(i as int), b@.skip(i as int)),
        decreases a.len() - i,
    {
        proof {
            assert(a@.skip(i as int)[0] == a@[i as int]);
            assert(b@.skip(i as int)[0] == b@[i as int]);
            assert(a@.skip(i as int).drop_first() =~= a@.skip(i + 1));
            assert(b@.skip(i as int).drop_first() =~= b@.skip(i + 1));
        }
        if a[i] != b[i] {
            return a[i] < b[i];
        }
        i += 1;
    }
    i < b.len()
}

} // verus!
