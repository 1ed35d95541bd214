//! Parsing of flat `key=value` configuration text, line by line: blank lines
//! and `#` comments are skipped, and each remaining line must hold a `=`.
//! The key is what stands before the first `=`; the value is what stands
//! between the first `=` and the second one, or the end of the line.
//! Lines are trimmed at both ends first; the blank characters recognised are
//! space, tab, carriage return and line feed.

use vstd::prelude::*;

use crate::errors::ConfigLoadErrors;
use crate::strings::{chars_vec, string_from_chars};

verus! {

/// A character trimmed from the ends of a line.
pub open spec fn is_blank(c: char) -> bool {
    c == ' ' || c == '\t' || c == '\r' || c == '\n'
}

/// `s` without its trailing blanks.
pub open spec fn trim_trailing_blanks(s: Seq<char>) -> Seq<char>
    decreases s.len(),
{
    if s.len() > 0 && is_blank(s.last()) {
        trim_trailing_blanks(s.drop_last())
    } else {
        s
    }
}

/// `s` without its leading blanks.
pub open spec fn trim_leading_blanks(s: Seq<char>) -> Seq<char>
    decreases s.len(),
{
    if s.len() > 0 && is_blank(s.first()) {
        trim_leading_blanks(s.drop_first())
    } else {
        s
    }
}

/// `s` trimmed at both ends.
pub open spec fn line_trim(s: Seq<char>) -> Seq<char> {
    trim_leading_blanks(trim_trailing_blanks(s))
}

/// The index of the first `=` in `s`, or `s.len()` if there is none.
pub open spec fn find_eq(s: Seq<char>) -> int
    decreases s.len(),
{
    if s.len() == 0 {
        0
    } else if s.first() == '=' {
        0
    } else {
        1 + find_eq(s.drop_first())
    }
}

/// The line carries nothing: it is blank, or a comment.
pub open spec fn kafka_skip(line: Seq<char>) -> bool {
    line_trim(line).len() == 0 || line_trim(line).first() == '#'
}

/// The line carries a key and a value: it is no comment and holds a `=`.
pub open spec fn kafka_has_kv(line: Seq<char>) -> bool {
    !kafka_skip(line) && find_eq(line_trim(line)) < line_trim(line).len()
}

/// The key of the line: what stands before the first `=` after trimming.
pub open spec fn kafka_key(line: Seq<char>) -> Seq<char> {
    line_trim(line).take(find_eq(line_trim(line)))
}

/// The value of the line: what stands between the first `=` and the second
/// one, or the end of the trimmed line.
pub open spec fn kafka_value(line: Seq<char>) -> Seq<char> {
    let rest = line_trim(line).skip(find_eq(line_trim(line)) + 1);
    rest.take(find_eq(rest))
}

/// Copy `cs[from..to]` into a fresh vector.
fn subchars(cs: &Vec<char>, from: usize, to: usize) -> (r: Vec<char>)
    requires
        0 <= from <= to <= cs@.len(),
    ensures
        r@ == cs@.subrange(from as int, to as int),
{
    let mut r: Vec<char> = Vec::new();
    let mut i: usize = from;
    while i < to
        invariant
            from <= i <= to <= cs@.len(),
            r@ == cs@.subrange(from as int, i as int),
        decreases to - i,
    {
        r.push(cs[i]);
        proof {
            assert(cs@.subrange(from as int, i as int) + seq![cs@[i as int]] =~= cs@.subrange(
                from as int,
                i + 1,
            ));
        }
        i = i + 1;
    }
    r
}

/// Whether `c` is trimmed from line ends.
fn is_blank_char(c: char) -> (r: bool)
    ensures
        r == is_blank(c),
{
    c == ' ' || c == '\t' || c == '\r' || c == '\n'
}

/// Parse one line of flat configuration text: nothing for a blank line or a
/// comment, the `(key, value)` pair for a line holding `=`, and the
/// key-split error naming the line for any other.
#[verifier::rlimit(80)]
pub fn parse_kafka_line(line: &str) -> (r: Result<Option<(String, String)>, ConfigLoadErrors>)
    ensures
        match r {
            Ok(None) => kafka_skip(line@),
            Ok(Some(kv)) => kafka_has_kv(line@) && kv.0@ == kafka_key(line@) && kv.1@
                == kafka_value(line@),
            Err(e) => {
                &&& !kafka_skip(line@) && !kafka_has_kv(line@)
                &&& e matches ConfigLoadErrors::KeySplitError(l) && l@ == line@
            },
        },
{
    let cs = chars_vec(line);
    let n = cs.len();

    // trim trailing blanks
    let mut e: usize = n;
    proof {
        assert(cs@.take(n as int) =~= cs@);
    }
    while e > 0 && is_blank_char(cs[e - 1])
        invariant
            0 <= e <= n == cs@.len(),
            trim_trailing_blanks(cs@.take(e as int)) == trim_trailing_blanks(cs@),
        decreases e,
    {
        proof {
            assert(cs@.take(e as int).last() == cs@[e - 1]);
            assert(cs@.take(e as int).drop_last() =~= cs@.take(e - 1));
        }
        e = e - 1;
    }
    proof {
        if e > 0 {
            assert(cs@.take(e as int).last() == cs@[e - 1]);
        }
        assert(trim_trailing_blanks(cs@.take(e as int)) == cs@.take(e as int));
    }
    let ghost tt = cs@.take(e as int);

    // trim leading blanks
    let mut b: usize = 0;
    proof {
        assert(tt.skip(0) =~= tt);
    }
    while b < e && is_blank_char(cs[b])
        invariant
            0 <= b <= e <= cs@.len(),
            tt == cs@.take(e as int),
            trim_leading_blanks(tt.skip(b as int)) == trim_leading_blanks(tt),
        decreases e - b,
    {
        proof {
            assert(tt.skip(b as int).first() == tt[b as int]);
            assert(tt[b as int] == cs@[b as int]);
            assert(tt.skip(b as int).drop_first() =~= tt.skip(b + 1));
        }
        b = b + 1;
    }
    proof {
        if b < e {
            assert(tt.skip(b as int).first() == cs@[b as int]);
        }
        assert(trim_leading_blanks(tt.skip(b as int)) == tt.skip(b as int));
        assert(line_trim(line@) == tt.skip(b as int));
    }
    let ghost t = tt.skip(b as int);

    if b == e {
        return Ok(None);
    }
    if cs[b] == '#' {
        proof {
            assert(t.first() == cs@[b as int]);
        }
        return Ok(None);
    }

    // first `=`
    let mut j: usize = b;
    proof {
        assert(t.skip(0) =~= t);
    }
    while j < e && cs[j] != '='
        invariant
            b <= j <= e <= cs@.len(),
            t == cs@.take(e as int).skip(b as int),
            find_eq(t) == (j - b) + find_eq(t.skip(j - b)),
        decreases e - j,
    {
        proof {
            assert(t.skip(j - b).first() == t[j - b]);
            assert(t[j - b] == cs@[j as int]);
            assert(t.skip(j - b).drop_first() =~= t.skip(j - b + 1));
        }
        j = j + 1;
    }
    proof {
        if j < e {
            assert(t.skip(j - b).first() == cs@[j as int]);
            assert(find_eq(t.skip(j - b)) == 0);
        } else {
            assert(t.skip(j - b) =~= Seq::<char>::empty());
        }
    }
    if j == e {
        proof {
            assert(find_eq(t) == t.len());
        }
        return Err(ConfigLoadErrors::KeySplitError(line.to_owned()));
    }

    // second `=`, bounding the value
    let ghost rest = t.skip(find_eq(t) + 1);
    let mut m: usize = j + 1;
    proof {
        assert(rest =~= cs@.take(e as int).skip(j + 1));
        assert(rest.skip(0) =~= rest);
    }
    while m < e && cs[m] != '='
        invariant
            j + 1 <= m <= e <= cs@.len(),
            j < e,
            rest == cs@.take(e as int).skip(j + 1),
            find_eq(rest) == (m - j - 1) + find_eq(rest.skip(m - j - 1)),
        decreases e - m,
    {
        proof {
            assert(rest.skip(m - j - 1).first() == rest[m - j - 1]);
            assert(rest[m - j - 1] == cs@[m as int]);
            assert(rest.skip(m - j - 1).drop_first() =~= rest.skip(m - j));
        }
        m = m + 1;
    }
    proof {
        if m < e {
            assert(rest.skip(m - j - 1).first() == cs@[m as int]);
            assert(find_eq(rest.skip(m - j - 1)) == 0);
        } else {
            assert(rest.skip(m - j - 1) =~= Seq::<char>::empty());
        }
        assert(find_eq(rest) == m - j - 1);
    }

    let key = string_from_chars(&subchars(&cs, b, j));
    let value = string_from_chars(&subchars(&cs, j + 1, m));
    proof {
        assert(key@ =~= kafka_key(line@));
        assert(value@ =~= kafka_value(line@));
    }
    Ok(Some((key, value)))
}

/// What parsing all lines yields: the `(key, value)` pairs of the lines that
/// carry one, in order, or the first line that cannot be split.
pub open spec fn kafka_config_spec(lines: Seq<String>) -> Result<
    Seq<(Seq<char>, Seq<char>)>,
    Seq<char>,
>
    decreases lines.len(),
{
    if lines.len() == 0 {
        Ok(Seq::empty())
    } else {
        let l = lines.first()@;
        if kafka_skip(l) {
            kafka_config_spec(lines.drop_first())
        } else if kafka_has_kv(l) {
            match kafka_config_spec(lines.drop_first()) {
                Ok(t) => Ok(seq![(kafka_key(l), kafka_value(l))] + t),
                Err(k) => Err(k),
            }
        } else {
            Err(l)
        }
    }
}

/// Parse flat configuration text, line by line, in order: all the
/// `(key, value)` pairs, or the key-split error naming the first line that
/// cannot be split.
pub fn parse_kafka_config(lines: &Vec<String>) -> (r: Result<
    Vec<(String, String)>,
    ConfigLoadErrors,
>)
    ensures
        match r {
            Ok(pairs) => kafka_config_spec(lines@) matches Ok(t)
                && crate::etcd_conf::pairs_view(pairs@) == t,
            Err(e) => {
                &&& kafka_config_spec(lines@) matches Err(k)
                &&& e matches ConfigLoadErrors::KeySplitError(l) && l@ == k
            },
        },
{
    let n = lines.len();
    let mut res: Vec<(String, String)> = Vec::new();
    let mut i: usize = 0;
    let ghost mut acc: Seq<(Seq<char>, Seq<char>)> = Seq::empty();
    proof {
        assert(lines@.skip(0) =~= lines@);
        assert(kafka_config_spec(lines@) == crate::etcd_conf::fetch_compose(
            acc,
            kafka_config_spec(lines@.skip(0)),
        ));
    }
    while i < n
        invariant
            0 <= i <= n == lines@.len(),
            crate::etcd_conf::pairs_view(res@) == acc,
            kafka_config_spec(lines@) == crate::etcd_conf::fetch_compose(
                acc,
                kafka_config_spec(lines@.skip(i as int)),
            ),
        decreases n - i,
    {
        proof {
            assert(lines@.skip(i as int).first() == lines@[i as int]);
            assert(lines@.skip(i as int).drop_first() =~= lines@.skip(i + 1));
        }
        match parse_kafka_line(lines[i].as_str()) {
            Ok(None) => {},
            Ok(Some(kv)) => {
                let ghost l = lines@[i as int]@;
                let ghost h = seq![(kafka_key(l), kafka_value(l))];
                res.push(kv);
                proof {
                    assert(crate::etcd_conf::pairs_view(res@) =~~= acc + h);
                    crate::etcd_conf::lemma_fetch_compose_step(
                        acc,
                        h,
                        kafka_config_spec(lines@.skip(i + 1)),
                    );
                    acc = acc + h;
                }
            },
            Err(e) => {
                return Err(e);
            },
        }
        i = i + 1;
    }
    proof {
        assert(lines@.skip(n as int) =~= Seq::<String>::empty());
        assert(acc + Seq::<(Seq<char>, Seq<char>)>::empty() =~= acc);
    }
    Ok(res)
}

} // verus!
