use vstd::prelude::*;

verus! {

/// The last index of `c` in `s`, or -1 when `c` does not occur.
pub open spec fn last_index(s: Seq<char>, c: char) -> int
    decreases s.len(),
{
    if s.len() == 0 {
        -1
    } else if s.last() == c {
        s.len() - 1
    } else {
        last_index(s.drop_last(), c)
    }
}

/// `last_index` finds an occurrence with nothing equal after it, and returns
/// -1 exactly when there is no occurrence at all.
pub proof fn lemma_last_index(s: Seq<char>, c: char)
    ensures
        last_index(s, c) == -1 ==> forall|j: int| 0 <= j < s.len() ==> s[j] != c,
        last_index(s, c) != -1 ==> {
            &&& 0 <= last_index(s, c) < s.len()
            &&& s[last_index(s, c)] == c
            &&& forall|j: int| last_index(s, c) < j < s.len() ==> s[j] != c
        },
    decreases s.len(),
{
    if s.len() > 0 && s.last() != c {
        lemma_last_index(s.drop_last(), c);
        assert forall|j: int| 0 <= j < s.len() - 1 implies s.drop_last()[j] == s[j] by {}
    }
}

/// The stem of an identifier: the characters after the last '/', cut before
/// the last '.' when that dot lies strictly inside the base name. A dot at
/// the very start of the base name (a hidden file) does not cut.
pub open spec fn stem_range(s: Seq<char>) -> (int, int) {
    let start = last_index(s, '/') + 1;
    let dot = last_index(s, '.');
    let end = if dot > start {
        dot
    } else {
        s.len() as int
    };
    (start, end)
}

/// The label file name derived from an identifier: its base-name stem with
/// the extension replaced by ".txt".
pub open spec fn label_name_chars(s: Seq<char>) -> Seq<char> {
    let (start, end) = stem_range(s);
    s.subrange(start, end) + seq!['.', 't', 'x', 't']
}

/// Scans backwards for the last occurrence of `c` at an index in
/// [`from`, `s@.len()`), returning the index just past it, or `from` when
/// there is none there.
fn scan_last(s: &str, c: char, from: usize, len: usize) -> (r: usize)
    requires
        from <= len,
        len == s@.len(),
    ensures
        from <= r <= len,
        r > from ==> s@[r - 1] == c && (forall|j: int| r <= j < len ==> s@[j] != c),
        r == from ==> forall|j: int| from <= j < len ==> s@[j] != c,
{
    let mut i: usize = len;
    while i > from
        invariant
            from <= i <= len,
            len == s@.len(),
            forall|j: int| i <= j < len ==> s@[j] != c,
        decreases i,
    {
        if s.get_char(i - 1) == c {
            return i;
        }
        i = i - 1;
    }
    from
}

/// Derives the label file name for an identifier: the base name of the
/// identifier (after any '/'), its extension dropped, with ".txt" appended.
pub fn label_file_name(id: &str) -> (r: String)
    ensures
        r@ == label_name_chars(id@),
{
    let len = id.unicode_len();
    let after_slash = scan_last(id, '/', 0, len);
    let after_dot = scan_last(id, '.', after_slash, len);
    let end = if after_dot >= 1 && after_dot - 1 > after_slash {
        after_dot - 1
    } else {
        len
    };
    proof {
        lemma_last_index(id@, '/');
        lemma_last_index(id@, '.');
        assert(last_index(id@, '/') + 1 == after_slash);
        if after_dot > after_slash {
            assert(last_index(id@, '.') == after_dot - 1);
        } else {
            assert(last_index(id@, '.') < after_slash);
        }
    }
    let stem = id.substring_char(after_slash, end);
    let r = stem.to_owned().concat(".txt");
    proof {
        reveal_strlit(".txt");
        assert(r@ =~= label_name_chars(id@));
    }
    r
}

} // verus!
