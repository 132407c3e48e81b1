//! Finding the controller, and writing down what it sends.
use vstd::prelude::*;
use vstd::string::{StrSliceExecFns, StringExecFns};

verus! {

/// A string in upper case.
pub uninterp spec fn uppercase(s: Seq<char>) -> Seq<char>;

/// Puts a string in upper case: std's `str::to_uppercase`, by the rules of
/// Unicode, which depend on the string alone.
#[verifier::external_body]
fn to_upper(s: &str) -> (r: String)
    ensures
        r@ == uppercase(s@),
{
    s.to_uppercase()
}

/// What the names of the ports of the controller contain.
pub open spec fn keywords() -> Seq<Seq<char>> {
    seq!["FLX4"@, "FLX 4"@, "DDJ"@]
}

/// `part` stands at place `i` of `s`.
pub open spec fn stands_at(s: Seq<char>, part: Seq<char>, i: int) -> bool {
    0 <= i && i + part.len() <= s.len() && s.subrange(i, i + part.len()) == part
}

/// `part` stands somewhere in `s`.
pub open spec fn contains_part(s: Seq<char>, part: Seq<char>) -> bool {
    exists|i: int| stands_at(s, part, i)
}

/// Whether `part` stands somewhere in `s`.
pub fn find_part(s: &str, part: &str) -> (r: bool)
    ensures
        r == contains_part(s@, part@),
{
    let n: usize = s.unicode_len();
    let m: usize = part.unicode_len();
    if m > n {
        return false;
    }
    let mut i: usize = 0;
    while i <= n - m
        invariant
            n == s@.len(),
            m == part@.len(),
            m <= n,
            i <= n - m + 1,
            forall|k: int| 0 <= k < i ==> !stands_at(s@, part@, k),
        decreases n - m + 1 - i,
    {
        let mut j: usize = 0;
        while j < m && s.get_char(i + j) == part.get_char(j)
            invariant
                n == s@.len(),
                m == part@.len(),
                i + m <= n,
                j <= m,
                s@.subrange(i as int, i + j) == part@.take(j as int),
            decreases m - j,
        {
            assert(s@.subrange(i as int, i + j + 1) =~= s@.subrange(i as int, i + j).push(
                s@[i + j],
            ));
            assert(part@.take(j + 1) =~= part@.take(j as int).push(part@[j as int]));
            j = j + 1;
        }
        if j == m {
            assert(part@.take(m as int) =~= part@);
            assert(stands_at(s@, part@, i as int));
            return true;
        }
        assert(!stands_at(s@, part@, i as int)) by {
            if stands_at(s@, part@, i as int) {
                assert(s@.subrange(i as int, i + m)[j as int] == part@[j as int]);
            }
        }
        i = i + 1;
    }
    false
}

/// One of the words stands in the name.
pub open spec fn named_by(name: Seq<char>, words: Seq<Seq<char>>) -> bool {
    exists|k: int| 0 <= k < words.len() && #[trigger] contains_part(name, words[k])
}

/// What strings read.
pub open spec fn texts(v: Seq<String>) -> Seq<Seq<char>> {
    v.map_values(|s: String| s@)
}

/// Whether one of the words stands in the name.
fn is_named_by(name: &str, words: &Vec<String>) -> (r: bool)
    ensures
        r == named_by(name@, texts(words@)),
{
    let mut k: usize = 0;
    while k < words.len()
        invariant
            k <= words@.len(),
            forall|j: int| 0 <= j < k ==> !#[trigger] contains_part(name@, texts(words@)[j]),
        decreases words@.len() - k,
    {
        if find_part(name, words[k].as_str()) {
            assert(contains_part(name@, texts(words@)[k as int]));
            return true;
        }
        k = k + 1;
    }
    false
}

/// The last of the first `n` names in which one of the words stands.
pub open spec fn last_named(names: Seq<Seq<char>>, words: Seq<Seq<char>>, n: int) -> Option<int>
    decreases n,
{
    if n <= 0 {
        None
    } else if named_by(names[n - 1], words) {
        Some(n - 1)
    } else {
        last_named(names, words, n - 1)
    }
}

/// The last name in which one of the words stands.
pub fn find_last(names: &Vec<String>, words: &Vec<String>) -> (r: Option<usize>)
    ensures
        match r {
            Some(i) => last_named(texts(names@), texts(words@), names@.len() as int) == Some(
                i as int,
            ) && i < names@.len(),
            None => last_named(texts(names@), texts(words@), names@.len() as int) is None,
        },
{
    let mut n: usize = names.len();
    while n > 0
        invariant
            n <= names@.len(),
            last_named(texts(names@), texts(words@), names@.len() as int) == last_named(
                texts(names@),
                texts(words@),
                n as int,
            ),
        decreases n,
    {
        if is_named_by(names[n - 1].as_str(), words) {
            return Some(n - 1);
        }
        n = n - 1;
    }
    None
}

/// Strings in upper case.
pub open spec fn uppercased(v: Seq<Seq<char>>) -> Seq<Seq<char>> {
    v.map_values(|s: Seq<char>| uppercase(s))
}

/// The port of the controller among the ports with the given names: the last
/// one whose name contains a keyword, in either case.
pub fn choose_port(names: &Vec<String>) -> (r: Option<usize>)
    ensures
        match r {
            Some(i) => last_named(
                uppercased(texts(names@)),
                uppercased(keywords()),
                names@.len() as int,
            ) == Some(i as int) && i < names@.len(),
            None => last_named(
                uppercased(texts(names@)),
                uppercased(keywords()),
                names@.len() as int,
            ) is None,
        },
{
    let mut words: Vec<String> = Vec::new();
    words.push(to_upper("FLX4"));
    words.push(to_upper("FLX 4"));
    words.push(to_upper("DDJ"));
    assert(texts(words@) =~= uppercased(keywords()));
    let mut upper: Vec<String> = Vec::new();
    let mut i: usize = 0;
    while i < names.len()
        invariant
            i <= names@.len(),
            texts(upper@) == uppercased(texts(names@)).take(i as int),
        decreases names@.len() - i,
    {
        let ghost before = texts(upper@);
        upper.push(to_upper(names[i].as_str()));
        assert(texts(upper@) =~= before.push(uppercase(names@[i as int]@)));
        assert(uppercased(texts(names@)).take(i + 1) =~= uppercased(texts(names@)).take(
            i as int,
        ).push(uppercase(names@[i as int]@)));
        i = i + 1;
    }
    assert(texts(upper@) =~= uppercased(texts(names@)));
    assert(upper@.len() == names@.len()) by {
        assert(texts(upper@).len() == upper@.len());
    }
    find_last(&upper, &words)
}

/// A hexadecimal digit.
pub open spec fn digit_char(n: int) -> char {
    if n == 0 {
        '0'
    } else if n == 1 {
        '1'
    } else if n == 2 {
        '2'
    } else if n == 3 {
        '3'
    } else if n == 4 {
        '4'
    } else if n == 5 {
        '5'
    } else if n == 6 {
        '6'
    } else if n == 7 {
        '7'
    } else if n == 8 {
        '8'
    } else if n == 9 {
        '9'
    } else if n == 10 {
        'A'
    } else if n == 11 {
        'B'
    } else if n == 12 {
        'C'
    } else if n == 13 {
        'D'
    } else if n == 14 {
        'E'
    } else {
        'F'
    }
}

/// A hexadecimal digit.
fn digit(n: u8) -> (r: &'static str)
    requires
        n < 16,
    ensures
        r@ == seq![digit_char(n as int)],
{
    proof {
        reveal_strlit("0");
        reveal_strlit("1");
        reveal_strlit("2");
        reveal_strlit("3");
        reveal_strlit("4");
        reveal_strlit("5");
        reveal_strlit("6");
        reveal_strlit("7");
        reveal_strlit("8");
        reveal_strlit("9");
        reveal_strlit("A");
        reveal_strlit("B");
        reveal_strlit("C");
        reveal_strlit("D");
        reveal_strlit("E");
        reveal_strlit("F");
    }
    let r: &'static str = match n {
        0 => "0",
        1 => "1",
        2 => "2",
        3 => "3",
        4 => "4",
        5 => "5",
        6 => "6",
        7 => "7",
        8 => "8",
        9 => "9",
        10 => "A",
        11 => "B",
        12 => "C",
        13 => "D",
        14 => "E",
        _ => "F",
    };
    assert(r@ =~= seq![digit_char(n as int)]);
    r
}

/// The two digits of a byte.
pub open spec fn byte_text(b: u8) -> Seq<char> {
    seq![digit_char(b as int / 16), digit_char(b as int % 16)]
}

/// The first `n` bytes in hexadecimal, a space between each and the next.
pub open spec fn hex_text(bytes: Seq<u8>, n: int) -> Seq<char>
    decreases n,
{
    if n <= 0 {
        seq![]
    } else if n == 1 {
        byte_text(bytes[0])
    } else {
        hex_text(bytes, n - 1) + seq![' '] + byte_text(bytes[n - 1])
    }
}

/// Bytes in hexadecimal, a space between each and the next.
pub fn hex(bytes: &Vec<u8>) -> (r: String)
    ensures
        r@ == hex_text(bytes@, bytes@.len() as int),
{
    let mut out: String = String::new();
    let mut i: usize = 0;
    assert(out@ =~= hex_text(bytes@, 0));
    while i < bytes.len()
        invariant
            i <= bytes@.len(),
            out@ == hex_text(bytes@, i as int),
        decreases bytes@.len() - i,
    {
        proof {
            reveal_strlit(" ");
        }
        if i > 0 {
            out.append(" ");
        }
        out.append(digit(bytes[i] / 16));
        out.append(digit(bytes[i] % 16));
        assert(out@ =~= hex_text(bytes@, i + 1));
        i = i + 1;
    }
    out
}

/// The port that is taken is the last with one of the words in its name: it has one,
/// and none behind it has.
pub proof fn lemma_last_named(names: Seq<Seq<char>>, words: Seq<Seq<char>>, n: int)
    requires
        0 <= n <= names.len(),
    ensures
        match last_named(names, words, n) {
            Some(i) => 0 <= i < n && named_by(names[i], words) && forall|k: int|
                i < k < n ==> !#[trigger] named_by(names[k], words),
            None => forall|k: int| 0 <= k < n ==> !#[trigger] named_by(names[k], words),
        },
    decreases n,
{
    if n > 0 && !named_by(names[n - 1], words) {
        lemma_last_named(names, words, n - 1);
    }
}

/// Bytes are told apart by their text.
pub proof fn lemma_byte_text_tells(a: u8, b: u8)
    ensures
        byte_text(a).len() == 2,
        byte_text(a) == byte_text(b) ==> a == b,
{
    assert(byte_text(a)[0] == digit_char(a as int / 16));
    assert(byte_text(a)[1] == digit_char(a as int % 16));
    assert(byte_text(b)[0] == digit_char(b as int / 16));
    assert(byte_text(b)[1] == digit_char(b as int % 16));
}

/// The text of bytes has two digits for each, in their order, and a blank between one
/// and the next.
pub proof fn lemma_hex_layout(bytes: Seq<u8>, n: int, k: int)
    requires
        0 <= k < n <= bytes.len(),
    ensures
        hex_text(bytes, n).len() == 3 * n - 1,
        hex_text(bytes, n).subrange(3 * k, 3 * k + 2) == byte_text(bytes[k]),
        k < n - 1 ==> hex_text(bytes, n)[3 * k + 2] == ' ',
    decreases n,
{
    if n > 1 {
        lemma_hex_layout(bytes, n - 1, if k < n - 1 {
            k
        } else {
            0
        });
        let before = hex_text(bytes, n - 1);
        let all = hex_text(bytes, n);
        assert(before.len() == 3 * n - 4);
        if k < n - 1 {
            assert(all.subrange(3 * k, 3 * k + 2) =~= before.subrange(3 * k, 3 * k + 2));
        } else {
            assert(all.subrange(3 * k, 3 * k + 2) =~= byte_text(bytes[k]));
        }
    } else {
        assert(hex_text(bytes, n).subrange(0, 2) =~= byte_text(bytes[0]));
    }
}

} // verus!
