//! Test cases for locale matching, as they are written in one line of text:
//! the supported locales, the desired locales and the expected locales,
//! three lists with `;` between them. The locales of a list stand one after
//! the other with blanks between them. A `#` begins a comment that runs to
//! the end of the line.

use vstd::prelude::*;

verus! {

/// Why a line is no test case.
#[derive(Debug, Clone, Copy, PartialEq, Eq, Structural)]
pub enum TestCaseError {
    /// The line has fewer than three lists.
    MissingList,
    /// The line has more than three lists.
    ExtraList,
    /// A byte that no locale holds stands in a list.
    InvalidByte,
}

/// One test case: three lists of locales, each locale as it was written.
#[derive(Debug, PartialEq, Eq)]
pub struct LocaleMatcherTestCase {
    pub supported: Vec<Vec<u8>>,
    pub desired: Vec<Vec<u8>>,
    pub expected: Vec<Vec<u8>>,
}

/// What has been read of a line.
pub struct Scan {
    /// The lists that are complete, and after them the list that is read.
    pub lists: Seq<Seq<Seq<u8>>>,
    /// The locale that is read; empty between locales.
    pub token: Seq<u8>,
    /// Whether a byte was read that no locale holds.
    pub bad: bool,
}

/// A blank or a tab.
pub open spec fn is_blank(b: u8) -> bool {
    b == 0x20 || b == 0x09
}

/// A byte of a locale: a letter, a digit, `-` or `_`.
pub open spec fn is_tag_byte(b: u8) -> bool {
    (0x30 <= b <= 0x39) || (0x41 <= b <= 0x5a) || (0x61 <= b <= 0x7a) || b == 0x2d || b == 0x5f
}

/// The lists with `token` added to the last of them, unless it is empty.
pub open spec fn flushed(lists: Seq<Seq<Seq<u8>>>, token: Seq<u8>) -> Seq<Seq<Seq<u8>>> {
    if token.len() == 0 || lists.len() == 0 {
        lists
    } else {
        lists.update(lists.len() - 1, lists.last().push(token))
    }
}

/// The state before anything is read: one list without locales.
pub open spec fn scan_start() -> Scan {
    Scan { lists: seq![Seq::<Seq<u8>>::empty()], token: Seq::<u8>::empty(), bad: false }
}

/// The state after the byte `b` is read in the state `st`.
pub open spec fn scan_step(st: Scan, b: u8) -> Scan {
    if is_blank(b) {
        Scan { lists: flushed(st.lists, st.token), token: Seq::<u8>::empty(), bad: st.bad }
    } else if b == 0x3b {
        Scan {
            lists: flushed(st.lists, st.token).push(Seq::<Seq<u8>>::empty()),
            token: Seq::<u8>::empty(),
            bad: st.bad,
        }
    } else if is_tag_byte(b) {
        Scan { lists: st.lists, token: st.token.push(b), bad: st.bad }
    } else {
        Scan { lists: st.lists, token: st.token, bad: true }
    }
}

/// The state after the first `n` bytes of `s` are read.
pub open spec fn scan(s: Seq<u8>, n: int) -> Scan
    decreases n,
{
    if n <= 0 || n > s.len() {
        scan_start()
    } else {
        scan_step(scan(s, n - 1), s[n - 1])
    }
}

/// The number of bytes of `s` before the comment: the place of the first
/// `#` at or after `from`, or the length of `s`.
pub open spec fn comment_start(s: Seq<u8>, from: int) -> int
    decreases s.len() - from,
{
    if from < 0 || from >= s.len() {
        s.len() as int
    } else if s[from] == 0x23 {
        from
    } else {
        comment_start(s, from + 1)
    }
}

/// The lists of the line `s`, or why it has none.
pub open spec fn parsed(s: Seq<u8>) -> Result<Seq<Seq<Seq<u8>>>, TestCaseError> {
    let st = scan(s, comment_start(s, 0));
    let lists = flushed(st.lists, st.token);
    if st.bad {
        Err(TestCaseError::InvalidByte)
    } else if lists.len() < 3 {
        Err(TestCaseError::MissingList)
    } else if lists.len() > 3 {
        Err(TestCaseError::ExtraList)
    } else {
        Ok(lists)
    }
}

/// The locales of a list, each as a sequence of bytes.
pub open spec fn tags(list: Seq<Vec<u8>>) -> Seq<Seq<u8>> {
    Seq::new(list.len(), |i: int| list[i]@)
}

/// The lists, each as a sequence of locales.
pub open spec fn all_tags(lists: Seq<Vec<Vec<u8>>>) -> Seq<Seq<Seq<u8>>> {
    Seq::new(lists.len(), |i: int| tags(lists[i]@))
}

/// Adds the locale `token` to the last list, unless it is empty.
fn flush(lists: &mut Vec<Vec<Vec<u8>>>, token: Vec<u8>)
    requires
        old(lists)@.len() > 0,
    ensures
        all_tags(final(lists)@) == flushed(all_tags(old(lists)@), token@),
        final(lists)@.len() == old(lists)@.len(),
{
    if token.len() > 0 {
        let ghost before = lists@;
        let ghost t = token@;
        let mut last: Vec<Vec<u8>> = match lists.pop() {
            Some(l) => l,
            None => Vec::new(),
        };
        let ghost last_before = last@;
        last.push(token);
        proof {
            assert(tags(last@) =~= tags(last_before).push(t));
        }
        lists.push(last);
        proof {
            let want = flushed(all_tags(before), t);
            assert(all_tags(lists@).len() == want.len());
            assert forall|i: int| 0 <= i < want.len() implies all_tags(lists@)[i] == want[i] by {
                if i < before.len() - 1 {
                    assert(lists@[i] == before[i]);
                }
            }
            assert(all_tags(lists@) =~= want);
        }
    }
}

impl LocaleMatcherTestCase {
    /// The three lists of the test case, in their order.
    pub open spec fn view(&self) -> Seq<Seq<Seq<u8>>> {
        seq![tags(self.supported@), tags(self.desired@), tags(self.expected@)]
    }

    /// Reads a test case from one line of text.
    pub fn from_bytes(line: &[u8]) -> (r: Result<Self, TestCaseError>)
        ensures
            match r {
                Ok(case) => parsed(line@) == Ok::<Seq<Seq<Seq<u8>>>, TestCaseError>(case@),
                Err(e) => parsed(line@) == Err::<Seq<Seq<Seq<u8>>>, TestCaseError>(e),
            },
    {
        let mut lists: Vec<Vec<Vec<u8>>> = Vec::new();
        lists.push(Vec::new());
        let mut token: Vec<u8> = Vec::new();
        let mut bad: bool = false;
        let mut i: usize = 0;
        proof {
            assert(tags(lists@[0]@) =~= Seq::<Seq<u8>>::empty());
            assert(all_tags(lists@) =~= scan_start().lists);
        }
        while i < line.len() && line[i] != 0x23
            invariant
                i <= line.len(),
                lists@.len() > 0,
                comment_start(line@, 0) == comment_start(line@, i as int),
                all_tags(lists@) == scan(line@, i as int).lists,
                token@ == scan(line@, i as int).token,
                bad == scan(line@, i as int).bad,
            decreases line.len() - i,
        {
            let b: u8 = line[i];
            let ghost before = all_tags(lists@);
            if b == 0x20 || b == 0x09 {
                flush(&mut lists, token);
                token = Vec::new();
            } else if b == 0x3b {
                flush(&mut lists, token);
                token = Vec::new();
                let ghost mid = lists@;
                lists.push(Vec::new());
                proof {
                    assert(tags(Seq::<Vec<u8>>::empty()) =~= Seq::<Seq<u8>>::empty());
                    assert(all_tags(lists@) =~= all_tags(mid).push(Seq::<Seq<u8>>::empty()));
                }
            } else if (0x30 <= b && b <= 0x39) || (0x41 <= b && b <= 0x5a) || (0x61 <= b && b
                <= 0x7a) || b == 0x2d || b == 0x5f {
                token.push(b);
            } else {
                bad = true;
            }
            i = i + 1;
        }
        proof {
            assert(comment_start(line@, i as int) == i);
        }
        flush(&mut lists, token);
        if bad {
            return Err(TestCaseError::InvalidByte);
        }
        if lists.len() < 3 {
            return Err(TestCaseError::MissingList);
        }
        if lists.len() > 3 {
            return Err(TestCaseError::ExtraList);
        }
        let ghost all = all_tags(lists@);
        let expected: Vec<Vec<u8>> = match lists.pop() {
            Some(l) => l,
            None => Vec::new(),
        };
        let desired: Vec<Vec<u8>> = match lists.pop() {
            Some(l) => l,
            None => Vec::new(),
        };
        let supported: Vec<Vec<u8>> = match lists.pop() {
            Some(l) => l,
            None => Vec::new(),
        };
        let case = LocaleMatcherTestCase { supported, desired, expected };
        proof {
            assert(case@ =~= all);
        }
        Ok(case)
    }
}

} // verus!
