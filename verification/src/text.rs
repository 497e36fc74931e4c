//! Plain-text building blocks: decimal numbers, column padding and the
//! comparison of strings against fixed words.
use vstd::prelude::*;

verus! {

/// The character of a decimal digit.
pub open spec fn digit_char(d: nat) -> char {
    if d == 0 {
        '0'
    } else if d == 1 {
        '1'
    } else if d == 2 {
        '2'
    } else if d == 3 {
        '3'
    } else if d == 4 {
        '4'
    } else if d == 5 {
        '5'
    } else if d == 6 {
        '6'
    } else if d == 7 {
        '7'
    } else if d == 8 {
        '8'
    } else {
        '9'
    }
}

/// The decimal representation of `n`, without sign or leading zeros.
pub open spec fn dec(n: nat) -> Seq<char>
    decreases n,
{
    if n < 10 {
        seq![digit_char(n)]
    } else {
        dec(n / 10) + seq![digit_char(n % 10)]
    }
}

/// `n` as exactly two digits, with a leading zero below ten.
pub open spec fn two_digits(n: nat) -> Seq<char>
    recommends
        n < 100,
{
    seq![digit_char(n / 10), digit_char(n % 10)]
}

/// `s` followed by spaces up to `width` characters (never cut).
pub open spec fn pad_right_spec(s: Seq<char>, width: nat) -> Seq<char> {
    if s.len() >= width {
        s
    } else {
        s + Seq::new((width - s.len()) as nat, |i: int| ' ')
    }
}

/// Spaces up to `width` characters, then `s` (never cut).
pub open spec fn pad_left_spec(s: Seq<char>, width: nat) -> Seq<char> {
    if s.len() >= width {
        s
    } else {
        Seq::new((width - s.len()) as nat, |i: int| ' ') + s
    }
}

/// `count` copies of `unit` one after another.
pub open spec fn repeat_spec(unit: Seq<char>, count: nat) -> Seq<char>
    decreases count,
{
    if count == 0 {
        Seq::empty()
    } else {
        repeat_spec(unit, (count - 1) as nat) + unit
    }
}

/// The lines joined with a newline between each two.
pub open spec fn join_lines(lines: Seq<Seq<char>>) -> Seq<char>
    decreases lines.len(),
{
    if lines.len() == 0 {
        Seq::empty()
    } else if lines.len() == 1 {
        lines[0]
    } else {
        join_lines(lines.drop_last()) + seq!['\n'] + lines.last()
    }
}

fn digit_text(d: u64) -> (s: String)
    requires
        d < 10,
    ensures
        s@ == seq![digit_char(d as nat)],
{
    let lit: &str = if d == 0 {
        proof {
            reveal_strlit("0");
        }
        "0"
    } else if d == 1 {
        proof {
            reveal_strlit("1");
        }
        "1"
    } else if d == 2 {
        proof {
            reveal_strlit("2");
        }
        "2"
    } else if d == 3 {
        proof {
            reveal_strlit("3");
        }
        "3"
    } else if d == 4 {
        proof {
            reveal_strlit("4");
        }
        "4"
    } else if d == 5 {
        proof {
            reveal_strlit("5");
        }
        "5"
    } else if d == 6 {
        proof {
            reveal_strlit("6");
        }
        "6"
    } else if d == 7 {
        proof {
            reveal_strlit("7");
        }
        "7"
    } else if d == 8 {
        proof {
            reveal_strlit("8");
        }
        "8"
    } else {
        proof {
            reveal_strlit("9");
        }
        "9"
    };
    String::from_str(lit)
}

/// The decimal text of `n`, as `{}` formatting writes an unsigned integer.
pub fn decimal_text(n: u64) -> (s: String)
    ensures
        s@ == dec(n as nat),
    decreases n,
{
    if n < 10 {
        digit_text(n)
    } else {
        let mut s = decimal_text(n / 10);
        let last = digit_text(n % 10);
        s.append(last.as_str());
        s
    }
}

/// `n` as two digits with a leading zero, as `{:02}` formats a number below 100.
pub fn two_digit_text(n: u64) -> (s: String)
    requires
        n < 100,
    ensures
        s@ == two_digits(n as nat),
{
    let mut s = digit_text(n / 10);
    let last = digit_text(n % 10);
    s.append(last.as_str());
    s
}

/// `count` copies of `unit`.
pub fn repeat_text(unit: &str, count: usize) -> (s: String)
    ensures
        s@ == repeat_spec(unit@, count as nat),
{
    let mut s = String::new();
    let mut i: usize = 0;
    while i < count
        invariant
            i <= count,
            s@ == repeat_spec(unit@, i as nat),
        decreases count - i,
    {
        s.append(unit);
        i = i + 1;
    }
    s
}

/// `s` left-aligned in a column of `width` characters, as `{:<width$}` does.
pub fn pad_right(s: &str, width: usize) -> (r: String)
    ensures
        r@ == pad_right_spec(s@, width as nat),
{
    let len = s.unicode_len();
    let mut r = String::from_str(s);
    if len < width {
        let fill = repeat_text(" ", width - len);
        proof {
            reveal_strlit(" ");
            assert(" "@ =~= seq![' ']);
            lemma_repeat_space((width - len) as nat);
        }
        r.append(fill.as_str());
    }
    r
}

/// `s` right-aligned in a column of `width` characters, as `{:>width$}` does.
pub fn pad_left(s: &str, width: usize) -> (r: String)
    ensures
        r@ == pad_left_spec(s@, width as nat),
{
    let len = s.unicode_len();
    if len < width {
        let mut r = repeat_text(" ", width - len);
        proof {
            reveal_strlit(" ");
            assert(" "@ =~= seq![' ']);
            lemma_repeat_space((width - len) as nat);
        }
        r.append(s);
        r
    } else {
        String::from_str(s)
    }
}

proof fn lemma_repeat_space(n: nat)
    ensures
        repeat_spec(seq![' '], n) =~= Seq::new(n, |i: int| ' '),
    decreases n,
{
    if n > 0 {
        lemma_repeat_space((n - 1) as nat);
    }
}

/// The lines joined with `\n`, as `lines.join("\n")` does.
pub fn join_with_newlines(lines: &Vec<String>) -> (r: String)
    ensures
        r@ == join_lines(lines@.map_values(|l: String| l@)),
{
    let ghost views = lines@.map_values(|l: String| l@);
    let mut r = String::new();
    let mut i: usize = 0;
    proof {
        reveal_strlit("\n");
        assert(views.take(0) =~= Seq::<Seq<char>>::empty());
    }
    while i < lines.len()
        invariant
            i <= lines.len(),
            views == lines@.map_values(|l: String| l@),
            r@ == join_lines(views.take(i as int)),
        decreases lines.len() - i,
    {
        proof {
            reveal_strlit("\n");
            assert("\n"@ =~= seq!['\n']);
        }
        if i > 0 {
            r.append("\n");
        }
        r.append(lines[i].as_str());
        proof {
            assert(views[i as int] == lines@[i as int]@);
            assert(views.take(i + 1).drop_last() =~= views.take(i as int));
            assert(views.take(i + 1).last() == views[i as int]);
            if i == 0 {
                assert(views.take(1) =~= seq![views[0]]);
            }
        }
        i = i + 1;
    }
    proof {
        assert(views.take(lines.len() as int) =~= views);
    }
    r
}

/// Whether `s` reads exactly `word`.
pub fn text_is(s: &String, word: &str) -> (b: bool)
    ensures
        b == (s@ == word@),
{
    let w = String::from_str(word);
    *s == w
}

} // verus!
