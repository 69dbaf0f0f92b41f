use vstd::prelude::*;

verus! {

/// Copies `v[start..end]` into a fresh vector.
pub fn copy_chars(v: &Vec<char>, start: usize, end: usize) -> (r: Vec<char>)
    requires
        start <= end <= v@.len(),
    ensures
        r@ == v@.subrange(start as int, end as int),
{
    let mut r: Vec<char> = Vec::new();
    let mut k: usize = start;
    while k < end
        invariant
            start <= k <= end <= v@.len(),
            r@ == v@.subrange(start as int, k as int),
        decreases end - k,
    {
        r.push(v[k]);
        k = k + 1;
        assert(r@ =~= v@.subrange(start as int, k as int));
    }
    r
}

/// The character content of a buffer.
///
/// A `Text` is never changed in place: an edit builds a new one, so every
/// holder of an older version keeps seeing exactly that version.
pub struct Text {
    chars: Vec<char>,
}

impl View for Text {
    type V = Seq<char>;

    closed spec fn view(&self) -> Seq<char> {
        self.chars@
    }
}

impl Text {
    pub fn from_chars(chars: Vec<char>) -> (r: Text)
        ensures
            r@ == chars@,
    {
        Text { chars }
    }

    pub fn empty() -> (r: Text)
        ensures
            r@ == Seq::<char>::empty(),
    {
        Text { chars: Vec::new() }
    }

    /// Number of characters.
    pub fn len_chars(&self) -> (r: usize)
        ensures
            r == self@.len(),
    {
        self.chars.len()
    }

    pub fn char_at(&self, i: usize) -> (r: char)
        requires
            i < self@.len(),
        ensures
            r == self@[i as int],
    {
        self.chars[i]
    }

    /// The characters `start..end`, as a fresh vector.
    pub fn slice(&self, start: usize, end: usize) -> (r: Vec<char>)
        requires
            start <= end <= self@.len(),
        ensures
            r@ == self@.subrange(start as int, end as int),
    {
        copy_chars(&self.chars, start, end)
    }

    /// All characters, as a fresh vector.
    pub fn to_chars(&self) -> (r: Vec<char>)
        ensures
            r@ == self@,
    {
        let r = copy_chars(&self.chars, 0, self.chars.len());
        assert(r@ =~= self@);
        r
    }

    /// An independent copy of this version.
    pub fn snapshot(&self) -> (r: Text)
        ensures
            r@ == self@,
    {
        Text { chars: self.to_chars() }
    }
}

} // verus!
