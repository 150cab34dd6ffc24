//! Small helpers: element-wise sums and the decoding of stored id vectors.
use vstd::prelude::*;
use vstd::std_specs::ops::AddSpec;

verus! {

/// The element-wise sums `a[i] + b[i]`; the two slices must be of equal
/// length, and each sum must be defined.
pub fn add_vecs<T: core::ops::Add<Output = T> + Copy>(a: &[T], b: &[T]) -> (r: Vec<T>)
    requires
        a@.len() == b@.len(),
        forall|i: int| 0 <= i < a@.len() ==> (#[trigger] a@[i]).add_req(b@[i]),
    ensures
        r@.len() == a@.len(),
        forall|i: int|
            0 <= i < a@.len() ==> T::obeys_add_spec() ==> #[trigger] r@[i] == a@[i].add_spec(b@[i]),
{
    let mut r: Vec<T> = Vec::new();
    let mut k: usize = 0;
    while k < a.len()
        invariant
            a@.len() == b@.len(),
            forall|i: int| 0 <= i < a@.len() ==> (#[trigger] a@[i]).add_req(b@[i]),
            k <= a@.len(),
            r@.len() == k,
            forall|i: int| 0 <= i < k ==> T::obeys_add_spec() ==> #[trigger] r@[i] == a@[i].add_spec(b@[i]),
        decreases a.len() - k,
    {
        let x = a[k];
        let y = b[k];
        r.push(x + y);
        k = k + 1;
    }
    r
}

/// The little-endian value of the four bytes at `4 * i`.
pub open spec fn u32_at(bytes: Seq<u8>, i: int) -> nat {
    bytes[4 * i] as nat + 256 * bytes[4 * i + 1] as nat + 65536 * bytes[4 * i + 2] as nat
        + 16777216 * bytes[4 * i + 3] as nat
}

/// Reads the contents of a file of 32-bit unsigned integers as ids. The
/// integers are read little-endian on every machine: the order in which the
/// little-endian machines that write these files store them, and the order
/// that [`encode_i32s`] writes. The length must be a multiple of four.
pub fn read_to_usize_vec(buffer: &[u8]) -> (r: Vec<usize>)
    requires
        buffer@.len() % 4 == 0,
    ensures
        r@.len() == buffer@.len() / 4,
        forall|i: int| 0 <= i < r@.len() ==> #[trigger] r@[i] == u32_at(buffer@, i),
{
    let count = buffer.len() / 4;
    let mut r: Vec<usize> = Vec::new();
    let mut i: usize = 0;
    while i < count
        invariant
            count == buffer@.len() / 4,
            buffer@.len() % 4 == 0,
            i <= count,
            r@.len() == i,
            forall|k: int| 0 <= k < i ==> #[trigger] r@[k] == u32_at(buffer@, k),
        decreases count - i,
    {
        let blen = buffer.len();
        let ghost len = buffer@.len();
        assert(4 * i + 3 < len) by (nonlinear_arith)
            requires
                i < count,
                count == len / 4,
                len % 4 == 0,
        ;
        assert(4 * i + 3 < blen);
        let b0 = buffer[4 * i] as u32;
        let b1 = buffer[4 * i + 1] as u32;
        let b2 = buffer[4 * i + 2] as u32;
        let b3 = buffer[4 * i + 3] as u32;
        let v: u32 = b0 + 256 * b1 + 65536 * b2 + 16777216 * b3;
        r.push(v as usize);
        i = i + 1;
    }
    r
}

/// The 32-bit two's complement pattern of `x`, as a number.
pub open spec fn u32_of(x: i32) -> nat {
    if x >= 0 {
        x as nat
    } else {
        (x + 4294967296) as nat
    }
}

/// The number whose 32-bit two's complement pattern is `u`.
pub open spec fn i32_of(u: nat) -> int {
    if u < 2147483648 {
        u as int
    } else {
        u - 4294967296
    }
}

/// Byte `k` (0 the lowest) of the number `u` below `2^32`.
pub open spec fn byte_of(u: nat, k: int) -> u8 {
    (if k == 0 {
        u % 256
    } else if k == 1 {
        (u / 256) % 256
    } else if k == 2 {
        (u / 65536) % 256
    } else {
        u / 16777216
    }) as u8
}

/// The values of `v` as a file holds them: four bytes each, the lowest
/// first, one after the other.
pub open spec fn encoded_i32s(v: Seq<i32>) -> Seq<u8> {
    Seq::new(4 * v.len(), |k: int| byte_of(u32_of(v[k / 4]), k % 4))
}

/// The bytes of a file of 32-bit integers: each value as four bytes, the
/// lowest first, one value after the other.
pub fn encode_i32s(v: &[i32]) -> (r: Vec<u8>)
    requires
        4 * v@.len() <= usize::MAX,
    ensures
        r@ == encoded_i32s(v@),
{
    let mut r: Vec<u8> = Vec::new();
    let mut i: usize = 0;
    while i < v.len()
        invariant
            i <= v@.len(),
            4 * v@.len() <= usize::MAX,
            r@.len() == 4 * i,
            forall|k: int| 0 <= k < 4 * i ==> #[trigger] r@[k] == byte_of(u32_of(v@[k / 4]), k % 4),
        decreases v.len() - i,
    {
        let x = v[i];
        let u: u32 = if x >= 0 {
            x as u32
        } else {
            (x as i64 + 4294967296i64) as u32
        };
        assert(u as nat == u32_of(x));
        let ghost r0 = r@;
        r.push((u % 256) as u8);
        r.push(((u / 256) % 256) as u8);
        r.push(((u / 65536) % 256) as u8);
        r.push((u / 16777216) as u8);
        proof {
            assert forall|k: int| 0 <= k < 4 * (i + 1) implies #[trigger] r@[k] == byte_of(u32_of(v@[k / 4]), k % 4) by {
                if k >= 4 * i {
                    assert(k / 4 == i as int);
                    assert(k % 4 == k - 4 * i);
                } else {
                    assert(r@[k] == r0[k]);
                }
            }
        }
        i = i + 1;
    }
    assert(r@ =~= encoded_i32s(v@));
    r
}

/// The 32-bit integers of a file: four bytes each, the lowest first;
/// `None` where the length is no multiple of four.
pub fn decode_i32s(b: &[u8]) -> (r: Option<Vec<i32>>)
    ensures
        r is None <==> b@.len() % 4 != 0,
        r matches Some(v) ==> v@.len() == b@.len() / 4 && forall|i: int|
            0 <= i < v@.len() ==> #[trigger] v@[i] == i32_of(u32_at(b@, i)),
{
    if b.len() % 4 != 0 {
        return None;
    }
    let words = read_to_usize_vec(b);
    let mut r: Vec<i32> = Vec::new();
    let mut i: usize = 0;
    while i < words.len()
        invariant
            i <= words@.len(),
            words@.len() == b@.len() / 4,
            forall|k: int| 0 <= k < words@.len() ==> #[trigger] words@[k] == u32_at(b@, k),
            r@.len() == i,
            forall|k: int| 0 <= k < i ==> #[trigger] r@[k] == i32_of(u32_at(b@, k)),
        decreases words.len() - i,
    {
        let w = words[i];
        assert(w < 4294967296) by {
            assert(w == u32_at(b@, i as int));
        }
        let x: i32 = if w < 2147483648 {
            w as i32
        } else {
            (w as i64 - 4294967296i64) as i32
        };
        r.push(x);
        i = i + 1;
    }
    Some(r)
}

/// Decoding the encoding of a list of 32-bit integers gives the list back.
pub proof fn lemma_i32s_round_trip(v: Seq<i32>)
    ensures
        encoded_i32s(v).len() % 4 == 0,
        encoded_i32s(v).len() / 4 == v.len(),
        forall|i: int| 0 <= i < v.len() ==> i32_of(#[trigger] u32_at(encoded_i32s(v), i)) == v[i],
        forall|i: int| 0 <= i < v.len() ==> u32_at(encoded_i32s(v), i) == #[trigger] u32_of(v[i]),
{
    let e = encoded_i32s(v);
    assert forall|i: int| 0 <= i < v.len() implies u32_at(e, i) == #[trigger] u32_of(v[i]) by {
        let u = u32_of(v[i]);
        assert((4 * i) / 4 == i && (4 * i) % 4 == 0);
        assert((4 * i + 1) / 4 == i && (4 * i + 1) % 4 == 1);
        assert((4 * i + 2) / 4 == i && (4 * i + 2) % 4 == 2);
        assert((4 * i + 3) / 4 == i && (4 * i + 3) % 4 == 3);
        assert(u < 4294967296);
        assert(u % 256 + 256 * ((u / 256) % 256) + 65536 * ((u / 65536) % 256) + 16777216 * (u / 16777216) == u)
            by (nonlinear_arith)
            requires
                u < 4294967296,
        ;
    }
    assert forall|i: int| 0 <= i < v.len() implies i32_of(#[trigger] u32_at(e, i)) == v[i] by {
        assert(u32_at(e, i) == u32_of(v[i]));
    }
}

} // verus!
