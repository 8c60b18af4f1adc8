//! Text utilities the code generator builds on: decimal rendering of
//! counts and labels, and first-occurrence search for template markers.

use vstd::prelude::*;
use vstd::string::{StrSliceExecFns, StringExecFns};

verus! {

/// The decimal digit character for a value below ten.
pub open spec fn digit_char(d: int) -> char {
    if d == 0 {
        '0'
    } else if d == 1 {
        '1'
    } else if d == 2 {
        '2'
    } else if d == 3 {
        '3'
    } else if d == 4 {
        '4'
    } else if d == 5 {
        '5'
    } else if d == 6 {
        '6'
    } else if d == 7 {
        '7'
    } else if d == 8 {
        '8'
    } else {
        '9'
    }
}

/// The decimal representation of a non-negative number, most significant
/// digit first, with no leading zeros except for the number 0 itself.
pub open spec fn dec_chars(n: nat) -> Seq<char>
    decreases n,
{
    if n < 10 {
        seq![digit_char(n as int)]
    } else {
        dec_chars(n / 10).push(digit_char((n % 10) as int))
    }
}

/// A one-character string for a decimal digit.
fn digit_str(d: usize) -> (r: &'static str)
    requires
        d < 10,
    ensures
        r@ == seq![digit_char(d as int)],
{
    match d {
        0 => {
            proof {
                reveal_strlit("0");
                assert("0"@ =~= seq![digit_char(0)]);
            }
            "0"
        },
        1 => {
            proof {
                reveal_strlit("1");
                assert("1"@ =~= seq![digit_char(1)]);
            }
            "1"
        },
        2 => {
            proof {
                reveal_strlit("2");
                assert("2"@ =~= seq![digit_char(2)]);
            }
            "2"
        },
        3 => {
            proof {
                reveal_strlit("3");
                assert("3"@ =~= seq![digit_char(3)]);
            }
            "3"
        },
        4 => {
            proof {
                reveal_strlit("4");
                assert("4"@ =~= seq![digit_char(4)]);
            }
            "4"
        },
        5 => {
            proof {
                reveal_strlit("5");
                assert("5"@ =~= seq![digit_char(5)]);
            }
            "5"
        },
        6 => {
            proof {
                reveal_strlit("6");
                assert("6"@ =~= seq![digit_char(6)]);
            }
            "6"
        },
        7 => {
            proof {
                reveal_strlit("7");
                assert("7"@ =~= seq![digit_char(7)]);
            }
            "7"
        },
        8 => {
            proof {
                reveal_strlit("8");
                assert("8"@ =~= seq![digit_char(8)]);
            }
            "8"
        },
        _ => {
            proof {
                reveal_strlit("9");
                assert("9"@ =~= seq![digit_char(9)]);
            }
            "9"
        },
    }
}

/// Render a non-negative number in decimal.
pub fn dec_string(n: usize) -> (r: String)
    ensures
        r@ == dec_chars(n as nat),
    decreases n,
{
    if n < 10 {
        let s = digit_str(n);
        s.to_owned()
    } else {
        let mut prefix = dec_string(n / 10);
        let d = digit_str(n % 10);
        prefix.append(d);
        proof {
            assert(prefix@ =~= dec_chars((n / 10) as nat).push(digit_char((n % 10) as int)));
        }
        prefix
    }
}

/// The position of the first occurrence of `n` in `h`, if any.
pub open spec fn spec_find(h: Seq<char>, n: Seq<char>) -> Option<int>
    decreases h.len(),
{
    if n.len() > h.len() {
        None
    } else if n.len() == 0 {
        Some(0)
    } else if h.take(n.len() as int) == n {
        Some(0)
    } else {
        match spec_find(h.drop_first(), n) {
            Some(i) => Some(i + 1),
            None => None,
        }
    }
}

/// What `spec_find` returns: the first window equal to the needle, or a
/// guarantee that no window matches.
pub proof fn lemma_find_characterization(h: Seq<char>, n: Seq<char>)
    ensures
        spec_find(h, n) matches Some(i) ==> 0 <= i && i + n.len() <= h.len() && h.subrange(
            i,
            i + n.len(),
        ) == n && (forall|j: int| 0 <= j < i ==> #[trigger] h.subrange(j, j + n.len()) != n),
        spec_find(h, n) is None ==> (forall|j: int|
            0 <= j && j + n.len() <= h.len() ==> #[trigger] h.subrange(j, j + n.len()) != n),
    decreases h.len(),
{
    if n.len() > h.len() {
    } else if n.len() == 0 {
        assert(h.subrange(0, 0) =~= n);
    } else if h.take(n.len() as int) == n {
        assert(h.subrange(0, n.len() as int) =~= h.take(n.len() as int));
    } else {
        lemma_find_characterization(h.drop_first(), n);
        assert forall|j: int| 1 <= j && j + n.len() <= h.len() implies #[trigger] h.subrange(
            j,
            j + n.len(),
        ) == h.drop_first().subrange(j - 1, j - 1 + n.len()) by {
            assert(h.subrange(j, j + n.len()) =~= h.drop_first().subrange(
                j - 1,
                j - 1 + n.len(),
            ));
        }
        assert(h.subrange(0, n.len() as int) =~= h.take(n.len() as int));
    }
}

/// Find the first occurrence of `needle` in `hay`.
pub fn find_marker(hay: &str, needle: &str) -> (r: Option<usize>)
    ensures
        r is Some <==> spec_find(hay@, needle@) is Some,
        r matches Some(u) ==> spec_find(hay@, needle@) == Some(u as int),
{
    let n = hay.unicode_len();
    let m = needle.unicode_len();
    proof {
        lemma_find_characterization(hay@, needle@);
    }
    if m > n {
        return None;
    }
    if m == 0 {
        proof {
            assert(hay@.take(0) =~= needle@);
        }
        return Some(0);
    }
    let mut i: usize = 0;
    while i <= n - m
        invariant
            1 <= m <= n,
            n == hay@.len(),
            m == needle@.len(),
            i <= n - m + 1,
            forall|j: int| 0 <= j < i ==> #[trigger] hay@.subrange(j, j + m) != needle@,
        decreases n - m + 1 - i,
    {
        let mut j: usize = 0;
        let mut is_match = true;
        while j < m
            invariant
                j <= m,
                i + m <= n,
                n == hay@.len(),
                m == needle@.len(),
                is_match ==> (forall|k: int| 0 <= k < j ==> #[trigger] hay@[i + k] == needle@[k]),
                !is_match ==> hay@.subrange(i as int, i + m) != needle@,
            decreases m - j,
        {
            if is_match {
                let hc = hay.get_char(i + j);
                let nc = needle.get_char(j);
                if hc != nc {
                    is_match = false;
                    proof {
                        assert(hay@.subrange(i as int, i + m)[j as int] == hay@[i + j]);
                    }
                }
            }
            j = j + 1;
        }
        if is_match {
            proof {
                assert forall|k: int| 0 <= k < m implies hay@.subrange(i as int, i + m)[k]
                    == needle@[k] by {
                    assert(hay@[i + k] == needle@[k]);
                }
                assert(hay@.subrange(i as int, i + m) =~= needle@);
                lemma_find_characterization(hay@, needle@);
                if spec_find(hay@, needle@) is None {
                    assert(hay@.subrange(i as int, i + m) != needle@);
                }
                let fi = spec_find(hay@, needle@).unwrap();
                if fi < i {
                    assert(hay@.subrange(fi, fi + m) == needle@);
                }
                if fi > i {
                    assert(hay@.subrange(i as int, i + m) != needle@);
                }
            }
            return Some(i);
        }
        i = i + 1;
    }
    proof {
        lemma_find_characterization(hay@, needle@);
        if spec_find(hay@, needle@) is Some {
            let fi = spec_find(hay@, needle@).unwrap();
            assert(hay@.subrange(fi, fi + m) == needle@);
        }
    }
    None
}

} // verus!
