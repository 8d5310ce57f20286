//! Session codes: six base-36 symbols written `xx-xx-xx`, held as the number
//! they spell.
use vstd::prelude::*;

verus! {

/// Number of distinct session codes: 36 to the sixth power.
pub const CODE_SPACE: u32 = 2176782336;

/// The symbol of base-36 digit `d`: `0`-`9`, then `a`-`z`.
pub open spec fn symbol(d: int) -> char {
    if d < 10 {
        ((d + 48) as u8) as char
    } else {
        ((d + 87) as u8) as char
    }
}

/// The digit a symbol stands for, or -1 for a character that is no symbol.
pub open spec fn symbol_value(c: char) -> int {
    let v = c as u32;
    if 48 <= v <= 57 {
        v - 48
    } else if 97 <= v <= 122 {
        v - 87
    } else {
        -1
    }
}

/// The six base-36 digits of `n`, most significant first.
pub open spec fn code_digits(n: int) -> Seq<int> {
    seq![
        (n / 36 / 36 / 36 / 36 / 36) % 36,
        (n / 36 / 36 / 36 / 36) % 36,
        (n / 36 / 36 / 36) % 36,
        (n / 36 / 36) % 36,
        (n / 36) % 36,
        n % 36,
    ]
}

/// The number spelled by six digits, most significant first.
pub open spec fn digits_value(d: Seq<int>) -> int {
    ((((d[0] * 36 + d[1]) * 36 + d[2]) * 36 + d[3]) * 36 + d[4]) * 36 + d[5]
}

/// The text of code `n`: its digits as symbols, a dash after the second and
/// the fourth.
pub open spec fn code_text(n: int) -> Seq<char> {
    let d = code_digits(n);
    seq![symbol(d[0]), symbol(d[1]), '-', symbol(d[2]), symbol(d[3]), '-', symbol(d[4]), symbol(d[5])]
}

/// `s` is the text of code `n`.
pub open spec fn spells(s: Seq<char>, n: u32) -> bool {
    n < CODE_SPACE && code_text(n as int) == s
}

/// The code that `s` spells, if any.
pub open spec fn code_key(s: Seq<char>) -> Option<u32> {
    if exists|n: u32| spells(s, n) {
        Some(choose|n: u32| spells(s, n))
    } else {
        None
    }
}

/// A byte that rand's alphanumeric distribution can yield.
pub open spec fn is_alphanumeric(b: u8) -> bool {
    (48 <= b <= 57) || (65 <= b <= 90) || (97 <= b <= 122)
}

/// The base-36 digit of an alphanumeric byte, letters taken without case.
pub open spec fn byte_digit(b: u8) -> int {
    if b <= 57 {
        b - 48
    } else if b <= 90 {
        b - 55
    } else {
        b - 87
    }
}

/// A code is the number its digits spell, and each digit is below 36.
pub proof fn lemma_digits_value_of_code_digits(n: int)
    requires
        0 <= n < CODE_SPACE,
    ensures
        digits_value(code_digits(n)) == n,
        forall|i: int| 0 <= i < 6 ==> 0 <= #[trigger] code_digits(n)[i] < 36,
{
}

/// Six digits below 36 spell a code whose digits they are.
pub proof fn lemma_code_digits_of_digits_value(d: Seq<int>)
    requires
        d.len() == 6,
        forall|i: int| 0 <= i < 6 ==> 0 <= #[trigger] d[i] < 36,
    ensures
        0 <= digits_value(d) < CODE_SPACE,
        code_digits(digits_value(d)) == d,
{
    assert(code_digits(digits_value(d)) =~= d);
}

/// Reading a digit's symbol gives the digit back.
pub proof fn lemma_symbol_value(d: int)
    requires
        0 <= d < 36,
    ensures
        symbol_value(symbol(d)) == d,
{
}

/// Distinct codes have distinct texts.
pub proof fn lemma_code_text_injective(m: int, n: int)
    requires
        0 <= m < CODE_SPACE,
        0 <= n < CODE_SPACE,
        code_text(m) == code_text(n),
    ensures
        m == n,
{
    let dm = code_digits(m);
    let dn = code_digits(n);
    lemma_digits_value_of_code_digits(m);
    lemma_digits_value_of_code_digits(n);
    assert forall|i: int| 0 <= i < 6 implies dm[i] == dn[i] by {
        let k = if i < 2 { i } else if i < 4 { i + 1 } else { i + 2 };
        assert(code_text(m)[k] == code_text(n)[k]);
        lemma_symbol_value(dm[i]);
        lemma_symbol_value(dn[i]);
    }
    assert(dm =~= dn);
}

/// The symbol of digit `d`.
fn symbol_char(d: u32) -> (c: char)
    requires
        d < 36,
    ensures
        c == symbol(d as int),
{
    if d < 10 {
        ((d + 48) as u8) as char
    } else {
        ((d + 87) as u8) as char
    }
}

/// Relies on `String`'s `FromIterator<char>`: the string holds the characters
/// in order.
#[verifier::external_body]
fn string_of_chars(chars: &Vec<char>) -> (s: String)
    ensures
        s@ == chars@,
{
    chars.iter().collect()
}

/// The text of code `n`.
pub fn format_code(n: u32) -> (s: String)
    requires
        n < CODE_SPACE,
    ensures
        s@ == code_text(n as int),
{
    let d5 = n % 36;
    let q1 = n / 36;
    let d4 = q1 % 36;
    let q2 = q1 / 36;
    let d3 = q2 % 36;
    let q3 = q2 / 36;
    let d2 = q3 % 36;
    let q4 = q3 / 36;
    let d1 = q4 % 36;
    let q5 = q4 / 36;
    let d0 = q5 % 36;
    let chars = vec![
        symbol_char(d0),
        symbol_char(d1),
        '-',
        symbol_char(d2),
        symbol_char(d3),
        '-',
        symbol_char(d4),
        symbol_char(d5),
    ];
    let s = string_of_chars(&chars);
    assert(s@ =~= code_text(n as int));
    s
}

/// The digit that symbol `c` stands for.
fn digit_of_char(c: char) -> (r: Option<u32>)
    ensures
        match r {
            Some(d) => d < 36 && d == symbol_value(c) && symbol(d as int) == c,
            None => symbol_value(c) == -1,
        },
{
    let v = c as u32;
    if 48 <= v && v <= 57 {
        Some(v - 48)
    } else if 97 <= v && v <= 122 {
        Some(v - 87)
    } else {
        None
    }
}

/// The characters of a code's text, read one by one.
proof fn lemma_spelled_chars(s: Seq<char>, n: u32)
    requires
        spells(s, n),
    ensures
        s.len() == 8,
        s[2] == '-',
        s[5] == '-',
        symbol_value(s[0]) == code_digits(n as int)[0],
        symbol_value(s[1]) == code_digits(n as int)[1],
        symbol_value(s[3]) == code_digits(n as int)[2],
        symbol_value(s[4]) == code_digits(n as int)[3],
        symbol_value(s[6]) == code_digits(n as int)[4],
        symbol_value(s[7]) == code_digits(n as int)[5],
{
    lemma_digits_value_of_code_digits(n as int);
    let d = code_digits(n as int);
    lemma_symbol_value(d[0]);
    lemma_symbol_value(d[1]);
    lemma_symbol_value(d[2]);
    lemma_symbol_value(d[3]);
    lemma_symbol_value(d[4]);
    lemma_symbol_value(d[5]);
}

/// A string spells at most one code.
pub proof fn lemma_code_key(s: Seq<char>, n: u32)
    requires
        spells(s, n),
    ensures
        code_key(s) == Some(n),
{
    let m = choose|m: u32| spells(s, m);
    lemma_code_text_injective(m as int, n as int);
}

/// The code that `s` spells, if it spells one.
pub fn parse_code(s: &str) -> (r: Option<u32>)
    ensures
        r == code_key(s@),
{
    if s.unicode_len() != 8 || s.get_char(2) != '-' || s.get_char(5) != '-' {
        proof {
            assert forall|n: u32| !spells(s@, n) by {
                if spells(s@, n) {
                    lemma_spelled_chars(s@, n);
                }
            }
        }
        return None;
    }
    let c0 = digit_of_char(s.get_char(0));
    let c1 = digit_of_char(s.get_char(1));
    let c2 = digit_of_char(s.get_char(3));
    let c3 = digit_of_char(s.get_char(4));
    let c4 = digit_of_char(s.get_char(6));
    let c5 = digit_of_char(s.get_char(7));
    match (c0, c1, c2, c3, c4, c5) {
        (Some(d0), Some(d1), Some(d2), Some(d3), Some(d4), Some(d5)) => {
            let ghost d = seq![d0 as int, d1 as int, d2 as int, d3 as int, d4 as int, d5 as int];
            proof {
                lemma_code_digits_of_digits_value(d);
            }
            let value = ((((d0 * 36 + d1) * 36 + d2) * 36 + d3) * 36 + d4) * 36 + d5;
            assert(code_text(value as int) =~= s@);
            proof {
                lemma_code_key(s@, value);
            }
            Some(value)
        },
        _ => {
            proof {
                assert forall|n: u32| !spells(s@, n) by {
                    if spells(s@, n) {
                        lemma_spelled_chars(s@, n);
                        lemma_digits_value_of_code_digits(n as int);
                    }
                }
            }
            None
        },
    }
}

/// Relies on rand's `Alphanumeric` distribution, sampled from the
/// thread-local generator: each draw is an ASCII letter or digit.
#[verifier::external_body]
fn random_alphanumeric() -> (b: u8)
    ensures
        is_alphanumeric(b),
{
    rand::Rng::sample(&mut rand::rng(), rand::distr::Alphanumeric)
}

/// The digit of an alphanumeric byte.
fn digit_of_byte(x: u8) -> (d: u32)
    requires
        is_alphanumeric(x),
    ensures
        d == byte_digit(x),
        d < 36,
{
    if x <= 57 {
        (x - 48) as u32
    } else if x <= 90 {
        (x - 55) as u32
    } else {
        (x - 87) as u32
    }
}

/// The code spelled by six alphanumeric bytes, letters taken without case.
pub fn code_from_alphanumeric(b: &Vec<u8>) -> (n: u32)
    requires
        b@.len() == 6,
        forall|i: int| 0 <= i < 6 ==> is_alphanumeric(#[trigger] b@[i]),
    ensures
        n < CODE_SPACE,
        code_digits(n as int) == b@.map_values(|x: u8| byte_digit(x)),
{
    let d0 = digit_of_byte(b[0]);
    let d1 = digit_of_byte(b[1]);
    let d2 = digit_of_byte(b[2]);
    let d3 = digit_of_byte(b[3]);
    let d4 = digit_of_byte(b[4]);
    let d5 = digit_of_byte(b[5]);
    let ghost d = seq![d0 as int, d1 as int, d2 as int, d3 as int, d4 as int, d5 as int];
    proof {
        lemma_code_digits_of_digits_value(d);
        assert(d =~= b@.map_values(|x: u8| byte_digit(x)));
    }
    ((((d0 * 36 + d1) * 36 + d2) * 36 + d3) * 36 + d4) * 36 + d5
}

/// Draws a code at random.
pub fn draw_code() -> (n: u32)
    ensures
        n < CODE_SPACE,
{
    let mut b: Vec<u8> = Vec::new();
    let mut i: usize = 0;
    while i < 6
        invariant
            i <= 6,
            b@.len() == i,
            forall|j: int| 0 <= j < i ==> is_alphanumeric(#[trigger] b@[j]),
        decreases 6 - i,
    {
        b.push(random_alphanumeric());
        i = i + 1;
    }
    code_from_alphanumeric(&b)
}

} // verus!
