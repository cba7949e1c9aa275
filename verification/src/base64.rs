//! Base64 with the standard alphabet and padding (RFC 4648).

use vstd::prelude::*;

verus! {

/// The character for a group of six bits.
pub open spec fn sextet_char(n: int) -> char {
    if n < 26 {
        ((65 + n) as u32) as char
    } else if n < 52 {
        ((71 + n) as u32) as char
    } else if n < 62 {
        ((n - 4) as u32) as char
    } else if n == 62 {
        '+'
    } else {
        '/'
    }
}

/// The encoding: four characters for each three bytes, the last group padded
/// with `=`.
pub open spec fn encoded(bytes: Seq<u8>) -> Seq<char>
    decreases bytes.len(),
{
    if bytes.len() == 0 {
        seq![]
    } else if bytes.len() == 1 {
        seq![
            sextet_char(bytes[0] as int / 4),
            sextet_char((bytes[0] as int % 4) * 16),
            '=',
            '=',
        ]
    } else if bytes.len() == 2 {
        seq![
            sextet_char(bytes[0] as int / 4),
            sextet_char((bytes[0] as int % 4) * 16 + bytes[1] as int / 16),
            sextet_char((bytes[1] as int % 16) * 4),
            '=',
        ]
    } else {
        seq![
            sextet_char(bytes[0] as int / 4),
            sextet_char((bytes[0] as int % 4) * 16 + bytes[1] as int / 16),
            sextet_char((bytes[1] as int % 16) * 4 + bytes[2] as int / 64),
            sextet_char(bytes[2] as int % 64),
        ] + encoded(bytes.skip(3))
    }
}

/// Two byte sequences with the same encoding are the same.
pub proof fn law_encoding_is_injective(a: Seq<u8>, b: Seq<u8>)
    requires
        encoded(a) == encoded(b),
    ensures
        a == b,
    decreases a.len(),
{
    let e = encoded(a);
    let f = encoded(b);
    if a.len() == 0 || b.len() == 0 {
        assert(e.len() == 0);
        assert(a == b);
    } else {
        lemma_sextet_char_injective();
        assert(e[0] == f[0] && e[1] == f[1] && e[2] == f[2] && e[3] == f[3]);
        if a.len() >= 3 && b.len() >= 3 {
            assert(e.skip(4) == encoded(a.skip(3)));
            assert(f.skip(4) == encoded(b.skip(3)));
            law_encoding_is_injective(a.skip(3), b.skip(3));
            assert(a == seq![a[0], a[1], a[2]] + a.skip(3));
            assert(b == seq![b[0], b[1], b[2]] + b.skip(3));
        } else {
            assert(a == b);
        }
    }
}

proof fn lemma_sextet_char_injective()
    ensures
        forall|m: int, n: int|
            0 <= m < 64 && 0 <= n < 64 && #[trigger] sextet_char(m) == #[trigger] sextet_char(n)
                ==> m == n,
        forall|n: int| 0 <= n < 64 ==> #[trigger] sextet_char(n) != '=',
{
}

fn sextet(n: u8) -> (c: char)
    requires
        n < 64,
    ensures
        c == sextet_char(n as int),
{
    if n < 26 {
        (65u8 + n) as char
    } else if n < 52 {
        (71u8 + n) as char
    } else if n < 62 {
        (n - 4u8) as char
    } else if n == 62 {
        '+'
    } else {
        '/'
    }
}

/// The base64 encoding of `bytes`.
pub fn encode(bytes: &[u8]) -> (out: String)
    ensures
        out@ == encoded(bytes@),
{
    let mut out = String::new();
    let mut i: usize = 0;
    assert(bytes@.skip(0) == bytes@);
    while bytes.len() - i >= 3
        invariant
            i <= bytes@.len(),
            out@ + encoded(bytes@.skip(i as int)) == encoded(bytes@),
        decreases bytes@.len() - i,
    {
        let (a, b, c) = (bytes[i], bytes[i + 1], bytes[i + 2]);
        let ghost rest = bytes@.skip(i as int);
        let ghost before = out@;
        out.push(sextet(a / 4));
        out.push(sextet((a % 4) * 16 + b / 16));
        out.push(sextet((b % 16) * 4 + c / 64));
        out.push(sextet(c % 64));
        proof {
            assert(rest.skip(3) == bytes@.skip(i + 3));
            assert(before + encoded(rest) == out@ + encoded(rest.skip(3)));
        }
        i = i + 3;
    }
    let ghost rest = bytes@.skip(i as int);
    let ghost before = out@;
    if bytes.len() - i == 1 {
        let a = bytes[i];
        out.push(sextet(a / 4));
        out.push(sextet((a % 4) * 16));
        out.push('=');
        out.push('=');
    } else if bytes.len() - i == 2 {
        let (a, b) = (bytes[i], bytes[i + 1]);
        out.push(sextet(a / 4));
        out.push(sextet((a % 4) * 16 + b / 16));
        out.push(sextet((b % 16) * 4));
        out.push('=');
    }
    assert(out@ == before + encoded(rest));
    out
}

/// The 64 characters, in the order of what they stand for.
pub open spec fn alphabet() -> Seq<char> {
    "ABCDEFGHIJKLMNOPQRSTUVWXYZabcdefghijklmnopqrstuvwxyz0123456789+/"@
}

proof fn lemma_sextet_char(n: int)
    requires
        0 <= n < 64,
    ensures
        sextet_char(n) == alphabet()[n],
{
    reveal_strlit("ABCDEFGHIJKLMNOPQRSTUVWXYZabcdefghijklmnopqrstuvwxyz0123456789+/");
}

/// Groups of three bytes are encoded one after the other.
pub proof fn law_groups_are_encoded_in_turn(a: Seq<u8>, b: Seq<u8>)
    requires
        a.len() % 3 == 0,
    ensures
        encoded(a + b) == encoded(a) + encoded(b),
        encoded(a).len() == a.len() / 3 * 4,
    decreases a.len(),
{
    if a.len() == 0 {
        assert(a + b =~= b);
        assert(encoded(a) + encoded(b) =~= encoded(b));
    } else {
        law_groups_are_encoded_in_turn(a.skip(3), b);
        assert((a + b).skip(3) =~= a.skip(3) + b);
        assert(encoded(a + b) =~= encoded(a) + encoded(b));
    }
}

/// Three bytes become four characters that stand for the same 24 bits.
pub proof fn law_three_bytes_become_four_characters(x: u8, y: u8, z: u8)
    ensures
        exists|i: int, j: int, k: int, l: int|
            #![trigger alphabet()[i], alphabet()[j], alphabet()[k], alphabet()[l]]
            0 <= i < 64 && 0 <= j < 64 && 0 <= k < 64 && 0 <= l < 64 && encoded(seq![x, y, z])
                == seq![alphabet()[i], alphabet()[j], alphabet()[k], alphabet()[l]] && i * 262_144
                + j * 4096 + k * 64 + l == x * 65_536 + y * 256 + z,
{
    let bytes = seq![x, y, z];
    let (i, j) = (x as int / 4, (x as int % 4) * 16 + y as int / 16);
    let (k, l) = ((y as int % 16) * 4 + z as int / 64, z as int % 64);
    lemma_sextet_char(i);
    lemma_sextet_char(j);
    lemma_sextet_char(k);
    lemma_sextet_char(l);
    assert(encoded(bytes.skip(3)) =~= Seq::<char>::empty());
    assert(encoded(bytes) =~= seq![alphabet()[i], alphabet()[j], alphabet()[k], alphabet()[l]]);
    assert(i * 262_144 + j * 4096 + k * 64 + l == x * 65_536 + y * 256 + z);
}

/// One byte becomes two characters and two `=`, two bytes three characters and
/// one `=`; the bits that the characters have more are zero.
pub proof fn law_last_group_is_padded(x: u8, y: u8)
    ensures
        exists|i: int, j: int|
            #![trigger alphabet()[i], alphabet()[j]]
            0 <= i < 64 && 0 <= j < 64 && encoded(seq![x]) == seq![
                alphabet()[i],
                alphabet()[j],
                '=',
                '=',
            ] && i * 64 + j == x * 16,
        exists|i: int, j: int, k: int|
            #![trigger alphabet()[i], alphabet()[j], alphabet()[k]]
            0 <= i < 64 && 0 <= j < 64 && 0 <= k < 64 && encoded(seq![x, y]) == seq![
                alphabet()[i],
                alphabet()[j],
                alphabet()[k],
                '=',
            ] && i * 4096 + j * 64 + k == (x * 256 + y) * 4,
        encoded(Seq::empty()) == Seq::<char>::empty(),
{
    let (i, j) = (x as int / 4, (x as int % 4) * 16);
    lemma_sextet_char(i);
    lemma_sextet_char(j);
    assert(encoded(seq![x]) =~= seq![alphabet()[i], alphabet()[j], '=', '=']);
    assert(i * 64 + j == x * 16);
    let (m, n) = ((x as int % 4) * 16 + y as int / 16, (y as int % 16) * 4);
    lemma_sextet_char(m);
    lemma_sextet_char(n);
    assert(encoded(seq![x, y]) =~= seq![alphabet()[i], alphabet()[m], alphabet()[n], '=']);
    assert(i * 4096 + m * 64 + n == (x * 256 + y) * 4);
}

} // verus!
