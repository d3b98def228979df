//! Validated network-interface names.
use vstd::prelude::*;

use crate::WgError;

verus! {

/// A character an interface name may hold: anything but NUL, `/` and ASCII
/// whitespace (space, tab, line feed, form feed, carriage return).
pub open spec fn valid_iface_char(c: char) -> bool {
    c != '\u{0}' && c != '/' && c != ' ' && c != '\u{9}' && c != '\u{a}' && c != '\u{c}' && c
        != '\u{d}'
}

/// The UTF-8 byte length of one character.
pub open spec fn char_utf8_len(c: char) -> int {
    let u = c as u32;
    if u < 0x80 {
        1
    } else if u < 0x800 {
        2
    } else if u < 0x10000 {
        3
    } else {
        4
    }
}

/// The UTF-8 byte length of a character sequence.
pub open spec fn utf8_len(s: Seq<char>) -> int
    decreases s.len(),
{
    if s.len() == 0 {
        0
    } else {
        utf8_len(s.drop_last()) + char_utf8_len(s.last())
    }
}

proof fn lemma_utf8_len_nonneg(s: Seq<char>)
    ensures
        utf8_len(s) >= 0,
    decreases s.len(),
{
    if s.len() > 0 {
        lemma_utf8_len_nonneg(s.drop_last());
    }
}

/// A prefix is never longer in bytes than the whole.
proof fn lemma_utf8_len_prefix(s: Seq<char>, k: int)
    requires
        0 <= k <= s.len(),
    ensures
        utf8_len(s.subrange(0, k)) <= utf8_len(s),
    decreases s.len() - k,
{
    if k == s.len() {
        assert(s.subrange(0, k) =~= s);
    } else {
        let t = s.subrange(0, k + 1);
        assert(t.drop_last() =~= s.subrange(0, k));
        lemma_utf8_len_prefix(s, k + 1);
    }
}

/// A name the operating system accepts for an interface: one to fifteen
/// bytes of UTF-8, none of its characters NUL, `/` or ASCII whitespace.
pub open spec fn valid_iface_name(s: Seq<char>) -> bool {
    1 <= utf8_len(s) <= 15 && (forall|i: int| 0 <= i < s.len() ==> valid_iface_char(#[trigger] s[i]))
}

/// The validated name of a network interface.
pub struct InterfaceName {
    text: String,
}

impl View for InterfaceName {
    type V = Seq<char>;

    closed spec fn view(&self) -> Seq<char> {
        self.text@
    }
}

impl InterfaceName {
    /// The held name satisfies the naming rules.
    pub open spec fn wf(&self) -> bool {
        valid_iface_name(self@)
    }

    /// Validates `s` as an interface name; rejects the empty name, a name
    /// over fifteen bytes, and every disallowed character.
    pub fn from_text(s: &str) -> (r: Result<InterfaceName, WgError>)
        ensures
            valid_iface_name(s@) ==> (r matches Ok(n) && n@ == s@ && n.wf()),
            !valid_iface_name(s@) ==> (r matches Err(e) && e == WgError::InvalidInterfaceName),
    {
        let n = s.unicode_len();
        let mut bytes: usize = 0;
        let mut i: usize = 0;
        while i < n
            invariant
                i <= n,
                n == s@.len(),
                bytes == utf8_len(s@.subrange(0, i as int)),
                bytes <= 15,
                forall|j: int| 0 <= j < i ==> valid_iface_char(#[trigger] s@[j]),
            decreases n - i,
        {
            let c = s.get_char(i);
            if c == '\u{0}' || c == '/' || c == ' ' || c == '\u{9}' || c == '\u{a}' || c == '\u{c}'
                || c == '\u{d}' {
                proof {
                    assert(!valid_iface_char(s@[i as int]));
                }
                return Err(WgError::InvalidInterfaceName);
            }
            let u = c as u32;
            let step: usize = if u < 0x80 {
                1
            } else if u < 0x800 {
                2
            } else if u < 0x10000 {
                3
            } else {
                4
            };
            proof {
                let pre = s@.subrange(0, i as int);
                let cur = s@.subrange(0, i + 1);
                assert(cur.drop_last() =~= pre);
                assert(utf8_len(cur) == utf8_len(pre) + char_utf8_len(c));
            }
            bytes += step;
            i += 1;
            if bytes > 15 {
                proof {
                    lemma_utf8_len_prefix(s@, i as int);
                    assert(utf8_len(s@) > 15);
                }
                return Err(WgError::InvalidInterfaceName);
            }
        }
        proof {
            assert(s@.subrange(0, n as int) =~= s@);
        }
        if bytes < 1 || bytes > 15 {
            return Err(WgError::InvalidInterfaceName);
        }
        Ok(InterfaceName { text: s.to_owned() })
    }

    /// The name's text.
    pub fn as_text(&self) -> (r: String)
        ensures
            r@ == self@,
    {
        self.text.clone()
    }

    /// A value equal to this one.
    pub fn duplicate(&self) -> (r: InterfaceName)
        ensures
            r@ == self@,
    {
        InterfaceName { text: self.text.clone() }
    }

    /// Whether the two names read the same.
    pub fn equals(&self, other: &InterfaceName) -> (r: bool)
        ensures
            r == (self@ == other@),
    {
        self.text == other.text
    }
}

} // verus!
