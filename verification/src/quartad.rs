//! Windows of up to four key characters.

use vstd::prelude::*;
use crate::layout::is_key_char;
use crate::text::string_of;

verus! {

/// The most characters a window holds.
pub const MAX_LEN: usize = 4;

/// Up to four key characters in the order they are typed.
#[derive(Clone, Copy, PartialEq, Eq, Debug, Hash)]
pub struct Quartad {
    keys: [u8; 4],
    len: usize,
}

/// `window` with `c` typed after it: the last four characters at most.
pub open spec fn slide(window: Seq<char>, c: char) -> Seq<char> {
    if window.len() < MAX_LEN {
        window.push(c)
    } else {
        window.drop_first().push(c)
    }
}

/// Whether `window` is made of key characters, four at most.
pub open spec fn is_window(window: Seq<char>) -> bool {
    window.len() <= MAX_LEN && forall|i: int| 0 <= i < window.len() ==> is_key_char(window[i])
}

impl View for Quartad {
    type V = Seq<char>;

    closed spec fn view(&self) -> Seq<char> {
        Seq::new(self.len as nat, |i: int| self.keys@[i] as char)
    }
}

impl Quartad {
    /// The characters are key characters, and the unused places are blank.
    pub closed spec fn wf(self) -> bool {
        &&& self.len <= MAX_LEN
        &&& forall|i: int| 0 <= i < self.len ==> 0 < #[trigger] self.keys@[i] < 128
        &&& forall|i: int| self.len <= i < MAX_LEN ==> #[trigger] self.keys@[i] == 0
    }

    /// The number that stands for the window where windows are looked up.
    pub closed spec fn spec_code(self) -> u32 {
        (((self.keys@[0] * 128 + self.keys@[1]) * 128 + self.keys@[2]) * 128
            + self.keys@[3]) as u32
    }

    /// A well-formed window holds key characters, four at most.
    pub proof fn lemma_wf_window(self)
        requires
            self.wf(),
        ensures
            is_window(self@),
    {
    }

    /// Well-formed windows with the same characters, or with the same code,
    /// are the same window.
    pub proof fn lemma_same(self, other: Quartad)
        requires
            self.wf(),
            other.wf(),
            self@ == other@ || self.spec_code() == other.spec_code(),
        ensures
            self == other,
    {
        if self@ == other@ {
            assert(self@.len() == self.len && other@.len() == other.len);
            assert forall|i: int| 0 <= i < 4 implies self.keys@[i] == other.keys@[i] by {
                if i < self.len {
                    assert(self@[i] == other@[i]);
                }
            }
        } else {
            let a = self.keys@;
            let b = other.keys@;
            assert(a[3] == b[3] && a[2] == b[2] && a[1] == b[1] && a[0] == b[0]);
            assert(self.len == other.len);
        }
        assert(self.keys =~= other.keys);
    }

    /// The window without characters.
    pub fn empty() -> (q: Quartad)
        ensures
            q.wf(),
            q@ == Seq::<char>::empty(),
    {
        let q = Quartad { keys: [0u8; 4], len: 0 };
        assert(q@ =~= Seq::<char>::empty());
        q
    }

    /// The number of characters.
    pub fn len(&self) -> (n: usize)
        ensures
            n == self@.len(),
    {
        self.len
    }

    /// The character typed `back` places before the last.
    pub fn last(&self, back: usize) -> (c: char)
        requires
            self.wf(),
            back < self@.len(),
        ensures
            c == self@[self@.len() - 1 - back],
    {
        self.keys[self.len - 1 - back] as char
    }

    /// The window after `c` is typed: the last four characters at most.
    pub fn push(&self, c: char) -> (q: Quartad)
        requires
            self.wf(),
            is_key_char(c),
        ensures
            q.wf(),
            q@ == slide(self@, c),
    {
        let k = c as u8;
        let q = if self.len < MAX_LEN {
            let mut keys = self.keys;
            keys[self.len] = k;
            Quartad { keys, len: self.len + 1 }
        } else {
            Quartad { keys: [self.keys[1], self.keys[2], self.keys[3], k], len: MAX_LEN }
        };
        proof {
            assert(k as char == c);
            assert(q@ =~= slide(self@, c));
        }
        q
    }

    /// The last `n` characters.
    pub fn suffix(&self, n: usize) -> (q: Quartad)
        requires
            self.wf(),
            n <= self@.len(),
        ensures
            q.wf(),
            q@ == self@.subrange(self@.len() - n, self@.len() as int),
    {
        let mut keys: [u8; 4] = [0u8; 4];
        let start = self.len - n;
        let mut i: usize = 0;
        while i < n
            invariant
                i <= n,
                n <= self.len,
                self.len <= MAX_LEN,
                start == self.len - n,
                self.wf(),
                forall|j: int| 0 <= j < i ==> keys@[j] == self.keys@[start + j],
                forall|j: int| i <= j < MAX_LEN ==> keys@[j] == 0,
            decreases n - i,
        {
            keys[i] = self.keys[start + i];
            i += 1;
        }
        let q = Quartad { keys, len: n };
        proof {
            assert(q@ =~= self@.subrange(self@.len() - n, self@.len() as int));
        }
        q
    }

    /// The window of the characters of `chars`, where they are key
    /// characters and four at most.
    pub fn from_chars(chars: &Vec<char>) -> (q: Option<Quartad>)
        ensures
            q is Some <==> is_window(chars@),
            q matches Some(window) ==> window.wf() && window@ == chars@,
    {
        if chars.len() > MAX_LEN {
            return None;
        }
        let mut q = Quartad::empty();
        let mut i: usize = 0;
        while i < chars.len()
            invariant
                i <= chars.len(),
                chars.len() <= MAX_LEN,
                q.wf(),
                q@ == chars@.take(i as int),
                is_window(chars@.take(i as int)),
            decreases chars.len() - i,
        {
            let c = chars[i];
            if c < '\x01' || c > '\x7f' {
                return None;
            }
            q = q.push(c);
            proof {
                assert(chars@.take(i + 1) =~= chars@.take(i as int).push(c));
            }
            i += 1;
        }
        proof {
            assert(chars@.take(chars.len() as int) =~= chars@);
        }
        Some(q)
    }

    /// The characters, in the order they are typed.
    pub fn chars(&self) -> (chars: Vec<char>)
        requires
            self.wf(),
        ensures
            chars@ == self@,
    {
        let mut chars: Vec<char> = Vec::new();
        let mut i: usize = 0;
        while i < self.len
            invariant
                i <= self.len,
                self.wf(),
                chars@ == self@.take(i as int),
            decreases self.len - i,
        {
            chars.push(self.keys[i] as char);
            proof {
                assert(self@.take(i + 1) =~= self@.take(i as int).push(self@[i as int]));
            }
            i += 1;
        }
        proof {
            assert(self@.take(self.len as int) =~= self@);
        }
        chars
    }

    /// The characters as a string.
    pub fn to_string(&self) -> (text: String)
        requires
            self.wf(),
        ensures
            text@ == self@,
    {
        string_of(&self.chars())
    }

    /// The number that stands for the window where windows are looked up.
    pub fn code(&self) -> (code: u32)
        requires
            self.wf(),
        ensures
            code == self.spec_code(),
    {
        let k0 = self.keys[0] as u32;
        let k1 = self.keys[1] as u32;
        let k2 = self.keys[2] as u32;
        let k3 = self.keys[3] as u32;
        ((k0 * 128 + k1) * 128 + k2) * 128 + k3
    }
}

} // verus!
