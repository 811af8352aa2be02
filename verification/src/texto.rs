//! Text helpers: decimal and hexadecimal numerals, byte order of texts and
//! cutting a text at a byte position.
use vstd::prelude::*;
use vstd::utf8::{
    decode_utf8, encode_utf8, encode_utf8_valid_utf8, is_ascii_chars, is_ascii_chars_encode_utf8,
    is_char_boundary, is_char_boundary_iff_is_leading_byte, is_char_boundary_start_end_of_seq,
    is_leading_byte_width_1,
};

verus! {

/// Appends a character to a string (`String::push`).
pub assume_specification[ String::push ](s: &mut String, ch: char)
    ensures
        final(s)@ == old(s)@.push(ch),
;

pub open spec fn digito(d: nat) -> char {
    if d < 10 {
        ((d + 48) as u32) as char
    } else {
        ((d - 10 + 97) as u32) as char
    }
}

/// Decimal numeral of `n`, without leading zeros ("0" for zero).
pub open spec fn decimal(n: nat) -> Seq<char>
    decreases n,
{
    if n < 10 {
        seq![digito(n)]
    } else {
        decimal(n / 10).push(digito(n % 10))
    }
}

/// The `k` lowest hexadecimal digits of `n`, most significant first.
pub open spec fn hex(n: nat, k: nat) -> Seq<char>
    decreases k,
{
    if k == 0 {
        Seq::empty()
    } else {
        hex(n / 16, (k - 1) as nat).push(digito(n % 16))
    }
}

/// A lower-case hexadecimal digit: `0` to `9` or `a` to `f`.
pub open spec fn es_hex(c: char) -> bool {
    ('0' <= c && c <= '9') || ('a' <= c && c <= 'f')
}

/// The `k` hexadecimal digits are `k` ASCII characters, each of them `0`
/// to `9` or `a` to `f`.
pub proof fn lema_hex_ascii(n: nat, k: nat)
    ensures
        hex(n, k).len() == k,
        is_ascii_chars(hex(n, k)),
        forall|i: int| 0 <= i < k ==> es_hex(#[trigger] hex(n, k)[i]),
    decreases k,
{
    if k > 0 {
        lema_hex_ascii(n / 16, (k - 1) as nat);
        let h = hex(n, k);
        let d = n % 16;
        assert(es_hex(digito(d)));
        assert forall|i: int| 0 <= i < h.len() implies '\0' <= #[trigger] h[i] <= '\u{7f}' && es_hex(h[i]) by {
            if i < k - 1 {
                assert(h[i] == hex(n / 16, (k - 1) as nat)[i]);
            }
        }
    }
}

/// A text of ASCII characters can be cut at any byte.
pub proof fn lema_ascii_corte(s: Seq<char>, n: int)
    requires
        is_ascii_chars(s),
        0 <= n <= s.len(),
    ensures
        is_char_boundary(encode_utf8(s), n),
{
    is_ascii_chars_encode_utf8(s);
    encode_utf8_valid_utf8(s);
    if n < s.len() {
        is_char_boundary_iff_is_leading_byte(encode_utf8(s), n);
        let c = s[n];
        assert(c as u32 <= 0x7f);
        assert(encode_utf8(s)[n] == c as u8);
        assert(is_leading_byte_width_1(encode_utf8(s)[n])) by {
            assert((c as u32) < 128);
        }
    } else {
        is_char_boundary_start_end_of_seq(encode_utf8(s));
    }
}

fn char_de_digito(d: u64) -> (c: char)
    requires
        d < 16,
    ensures
        c == digito(d as nat),
{
    match d {
        0 => '0',
        1 => '1',
        2 => '2',
        3 => '3',
        4 => '4',
        5 => '5',
        6 => '6',
        7 => '7',
        8 => '8',
        9 => '9',
        10 => 'a',
        11 => 'b',
        12 => 'c',
        13 => 'd',
        14 => 'e',
        _ => 'f',
    }
}

/// Appends the decimal numeral of `n`.
pub fn escribir_decimal(s: &mut String, n: u64)
    ensures
        final(s)@ == old(s)@ + decimal(n as nat),
    decreases n,
{
    if n >= 10 {
        escribir_decimal(s, n / 10);
    }
    s.push(char_de_digito(n % 10));
    proof {
        if n >= 10 {
            assert(old(s)@ + decimal(n as nat / 10) + seq![digito(n as nat % 10)] =~= old(s)@
                + decimal(n as nat));
        } else {
            assert(old(s)@ + seq![digito(n as nat)] =~= old(s)@ + decimal(n as nat));
        }
    }
}

/// Appends the `k` lowest hexadecimal digits of `n`, zero padded.
pub fn escribir_hex(s: &mut String, n: u64, k: u32)
    ensures
        final(s)@ == old(s)@ + hex(n as nat, k as nat),
    decreases k,
{
    if k > 0 {
        escribir_hex(s, n / 16, k - 1);
        s.push(char_de_digito(n % 16));
        proof {
            assert(old(s)@ + hex(n as nat / 16, (k - 1) as nat) + seq![digito(n as nat % 16)] =~= old(
                s,
            )@ + hex(n as nat, k as nat));
        }
    } else {
        proof {
            assert(old(s)@ + Seq::<char>::empty() =~= old(s)@);
        }
    }
}

/// Appends the text `t`.
pub fn agregar(s: &mut String, t: &str)
    ensures
        final(s)@ == old(s)@ + t@,
{
    let ghost s0 = s@;
    for c in it: t.chars()
        invariant
            s@ == s0 + it.seq().take(it.index() as int),
    {
        s.push(c);
        proof {
            assert(s@ =~= s0 + it.seq().take(it.index() as int + 1));
        }
    }
    proof {
        assert(s@ =~= s0 + t@);
    }
}

/// The characters of `t`.
pub fn caracteres(t: &str) -> (r: Vec<char>)
    ensures
        r@ == t@,
{
    let mut r: Vec<char> = Vec::new();
    for c in it: t.chars()
        invariant
            r@ == it.seq().take(it.index() as int),
    {
        r.push(c);
        proof {
            assert(r@ =~= it.seq().take(it.index() as int + 1));
        }
    }
    proof {
        assert(r@ =~= t@);
    }
    r
}

/// Whether `s` starts with `p` (`str::starts_with`).
pub fn empieza_con(s: &str, p: &str) -> (b: bool)
    ensures
        b == p@.is_prefix_of(s@),
{
    let a = caracteres(s);
    let b = caracteres(p);
    if b.len() > a.len() {
        return false;
    }
    let mut i: usize = 0;
    while i < b.len()
        invariant
            a@ == s@,
            b@ == p@,
            b@.len() <= a@.len(),
            i <= b@.len(),
            forall|j: int| 0 <= j < i ==> b@[j] == a@[j],
        decreases b@.len() - i,
    {
        if a[i] != b[i] {
            proof {
                assert(s@.subrange(0, p@.len() as int)[i as int] != p@[i as int]);
            }
            return false;
        }
        i = i + 1;
    }
    proof {
        assert(p@ =~= s@.subrange(0, p@.len() as int));
    }
    true
}

/// Byte-wise lexicographic order, the order of Rust strings.
pub open spec fn lex_menor(a: Seq<u8>, b: Seq<u8>) -> bool
    decreases a.len(),
{
    if a.len() == 0 {
        b.len() > 0
    } else if b.len() == 0 {
        false
    } else if a[0] != b[0] {
        a[0] < b[0]
    } else {
        lex_menor(a.drop_first(), b.drop_first())
    }
}

/// Order of texts: byte-wise on their UTF-8 encodings.
pub open spec fn texto_menor(a: Seq<char>, b: Seq<char>) -> bool {
    lex_menor(encode_utf8(a), encode_utf8(b))
}

pub proof fn lema_lex_irreflexivo(a: Seq<u8>)
    ensures
        !lex_menor(a, a),
    decreases a.len(),
{
    if a.len() > 0 {
        lema_lex_irreflexivo(a.drop_first());
    }
}

pub proof fn lema_lex_asimetrico(a: Seq<u8>, b: Seq<u8>)
    ensures
        lex_menor(a, b) ==> !lex_menor(b, a),
    decreases a.len(),
{
    if a.len() > 0 && b.len() > 0 && a[0] == b[0] {
        lema_lex_asimetrico(a.drop_first(), b.drop_first());
    }
}

pub proof fn lema_lex_total(a: Seq<u8>, b: Seq<u8>)
    ensures
        a != b ==> lex_menor(a, b) || lex_menor(b, a),
    decreases a.len(),
{
    if a.len() > 0 && b.len() > 0 && a[0] == b[0] {
        lema_lex_total(a.drop_first(), b.drop_first());
        if a.drop_first() == b.drop_first() {
            assert(a =~= seq![a[0]] + a.drop_first());
            assert(b =~= seq![b[0]] + b.drop_first());
        }
    } else if a.len() == 0 && b.len() == 0 {
        assert(a =~= b);
    }
}

pub proof fn lema_lex_transitivo(a: Seq<u8>, b: Seq<u8>, c: Seq<u8>)
    requires
        lex_menor(a, b),
        lex_menor(b, c),
    ensures
        lex_menor(a, c),
    decreases a.len(),
{
    if a.len() > 0 && b.len() > 0 && c.len() > 0 && a[0] == b[0] && b[0] == c[0] {
        lema_lex_transitivo(a.drop_first(), b.drop_first(), c.drop_first());
    }
}

/// Different texts have different encodings.
pub proof fn lema_codificacion_inyectiva(a: Seq<char>, b: Seq<char>)
    ensures
        encode_utf8(a) == encode_utf8(b) ==> a == b,
{
    vstd::utf8::encode_utf8_decode_utf8(a);
    vstd::utf8::encode_utf8_decode_utf8(b);
}

/// The order of texts is a strict total order.
pub proof fn lema_texto_orden(a: Seq<char>, b: Seq<char>, c: Seq<char>)
    ensures
        !texto_menor(a, a),
        texto_menor(a, b) ==> !texto_menor(b, a),
        a != b ==> texto_menor(a, b) || texto_menor(b, a),
        texto_menor(a, b) && texto_menor(b, c) ==> texto_menor(a, c),
{
    lema_lex_irreflexivo(encode_utf8(a));
    lema_lex_asimetrico(encode_utf8(a), encode_utf8(b));
    lema_codificacion_inyectiva(a, b);
    lema_lex_total(encode_utf8(a), encode_utf8(b));
    if texto_menor(a, b) && texto_menor(b, c) {
        lema_lex_transitivo(encode_utf8(a), encode_utf8(b), encode_utf8(c));
    }
}

/// Whether `a` comes before `b` in the order of texts.
pub fn menor(a: &str, b: &str) -> (r: bool)
    ensures
        r == texto_menor(a@, b@),
{
    let x = a.as_bytes();
    let y = b.as_bytes();
    let ghost xs = x@;
    let ghost ys = y@;
    let mut i: usize = 0;
    proof {
        assert(xs.skip(0) =~= xs);
        assert(ys.skip(0) =~= ys);
    }
    while i < x.len() && i < y.len()
        invariant
            x@ == xs,
            y@ == ys,
            xs == encode_utf8(a@),
            ys == encode_utf8(b@),
            i <= xs.len(),
            i <= ys.len(),
            lex_menor(xs, ys) == lex_menor(xs.skip(i as int), ys.skip(i as int)),
        decreases xs.len() - i,
    {
        if x[i] != y[i] {
            return x[i] < y[i];
        }
        proof {
            assert(xs.skip(i as int).drop_first() =~= xs.skip(i as int + 1));
            assert(ys.skip(i as int).drop_first() =~= ys.skip(i as int + 1));
        }
        i = i + 1;
    }
    i == x.len() && i < y.len()
}

/// Text of the bytes of `s` in `[desde, hasta)`.
pub open spec fn bytes_de(s: Seq<char>, desde: int, hasta: int) -> Seq<char> {
    decode_utf8(encode_utf8(s).subrange(desde, hasta))
}

/// Cuts `s` at byte `n` (`str::split_at`).
pub fn partir(s: &str, n: usize) -> (r: (String, String))
    requires
        is_char_boundary(encode_utf8(s@), n as int),
    ensures
        r.0@ == bytes_de(s@, 0, n as int),
        r.1@ == bytes_de(s@, n as int, encode_utf8(s@).len() as int),
{
    let (a, b) = s.split_at(n);
    proof {
        vstd::utf8::encode_utf8_decode_utf8(a@);
        vstd::utf8::encode_utf8_decode_utf8(b@);
    }
    (a.to_owned(), b.to_owned())
}

} // verus!
