use vstd::prelude::*;
use vstd::string::StrSliceExecFns;

verus! {

/// The suffix of `s` after the last occurrence of `c`, or all of `s` when
/// `c` does not occur.
pub open spec fn after_last(s: Seq<char>, c: char) -> Seq<char>
    decreases s.len(),
{
    if s.len() == 0 {
        s
    } else if s.last() == c {
        Seq::empty()
    } else {
        after_last(s.drop_last(), c).push(s.last())
    }
}

/// A path with its trailing separators removed: path inspection ignores
/// them, so `foo/` names the file `foo`.
pub open spec fn strip_trailing_separators(p: Seq<char>) -> Seq<char>
    decreases p.len(),
{
    if p.len() > 0 && p.last() == '/' {
        strip_trailing_separators(p.drop_last())
    } else {
        p
    }
}

/// The file-name part of a path: everything after the last separator,
/// trailing separators ignored.
pub open spec fn file_name_of(p: Seq<char>) -> Seq<char> {
    after_last(strip_trailing_separators(p), '/')
}

/// Whether a file name has a dot anywhere past its first character; a name
/// whose only dot leads it, such as a hidden file's, has no extension.
pub open spec fn has_interior_dot(name: Seq<char>) -> bool {
    exists|i: int| 0 < i < name.len() && name[i] == '.'
}

/// The extension of a path's file name: everything after the last dot,
/// when a dot stands past the name's first character; empty otherwise.
pub open spec fn extension_of(p: Seq<char>) -> Seq<char> {
    if has_interior_dot(file_name_of(p)) {
        after_last(file_name_of(p), '.')
    } else {
        Seq::empty()
    }
}

/// When `k` is the last occurrence of `c`, the suffix after `c` is the
/// subrange past `k`.
proof fn lemma_after_last_at(s: Seq<char>, c: char, k: int)
    requires
        0 <= k < s.len(),
        s[k] == c,
        forall|j: int| k < j < s.len() ==> s[j] != c,
    ensures
        after_last(s, c) == s.subrange(k + 1, s.len() as int),
    decreases s.len(),
{
    if k == s.len() - 1 {
        assert(s.last() == c);
        assert(after_last(s, c) =~= s.subrange(k + 1, s.len() as int));
    } else {
        assert(s.last() != c);
        assert(s.drop_last() == s.subrange(0, s.len() - 1));
        lemma_after_last_at(s.drop_last(), c, k);
        assert(after_last(s, c) =~= s.subrange(k + 1, s.len() as int));
    }
}

/// When `c` does not occur, the suffix after it is the whole string.
proof fn lemma_after_last_none(s: Seq<char>, c: char)
    requires
        forall|j: int| 0 <= j < s.len() ==> s[j] != c,
    ensures
        after_last(s, c) == s,
    decreases s.len(),
{
    if s.len() > 0 {
        lemma_after_last_none(s.drop_last(), c);
        assert(after_last(s, c) =~= s);
    }
}

/// Splits a path into its file name and its extension, the two keys under
/// which a syntax definition is looked up.
pub fn split_filepath(filepath: &str) -> (r: (String, String))
    ensures
        r.0@ == file_name_of(filepath@),
        r.1@ == extension_of(filepath@),
{
    let len = filepath.unicode_len();

    // Drop trailing separators, as path inspection does.
    let mut end = len;
    assert(filepath@.take(len as int) =~= filepath@);
    while end > 0 && filepath.get_char(end - 1) == '/'
        invariant
            end <= len,
            len == filepath@.len(),
            strip_trailing_separators(filepath@) == strip_trailing_separators(
                filepath@.take(end as int),
            ),
        decreases end,
    {
        proof {
            assert(filepath@.take(end as int).last() == filepath@[end - 1]);
            assert(filepath@.take(end as int).drop_last() =~= filepath@.take(end - 1));
        }
        end = end - 1;
    }
    let ghost stripped = filepath@.take(end as int);
    proof {
        assert(filepath@.take(len as int) =~= filepath@);
        if end == 0 {
            assert(stripped.len() == 0);
        } else {
            assert(stripped.last() == filepath@[end - 1]);
        }
        assert(strip_trailing_separators(filepath@) == stripped);
    }

    let mut slash: usize = 0;
    let mut has_slash = false;
    for i in 0..end
        invariant
            end <= len,
            len == filepath@.len(),
            has_slash ==> slash < i && filepath@[slash as int] == '/' && forall|j: int|
                slash < j < i ==> filepath@[j] != '/',
            !has_slash ==> forall|j: int| 0 <= j < i ==> filepath@[j] != '/',
    {
        let ch = filepath.get_char(i);
        if ch == '/' {
            slash = i;
            has_slash = true;
        }
    }
    let name_start = if has_slash {
        slash + 1
    } else {
        0
    };
    let name = filepath.substring_char(name_start, end).to_owned();
    proof {
        assert(forall|j: int| 0 <= j < end ==> stripped[j] == #[trigger] filepath@[j]);
        if has_slash {
            lemma_after_last_at(stripped, '/', slash as int);
            assert(stripped.subrange(slash + 1, end as int) =~= filepath@.subrange(
                slash + 1,
                end as int,
            ));
        } else {
            lemma_after_last_none(stripped, '/');
            assert(filepath@.subrange(0, end as int) =~= stripped);
        }
        assert(name@ == file_name_of(filepath@));
    }

    let nlen = name.as_str().unicode_len();
    let mut dot: usize = 0;
    let mut has_dot = false;
    for i in 0..nlen
        invariant
            nlen == name@.len(),
            has_dot ==> dot < i && name@[dot as int] == '.' && forall|j: int|
                dot < j < i ==> name@[j] != '.',
            !has_dot ==> forall|j: int| 0 <= j < i ==> name@[j] != '.',
    {
        let ch = name.as_str().get_char(i);
        if ch == '.' {
            dot = i;
            has_dot = true;
        }
    }
    let ext = if has_dot && dot > 0 {
        let e = name.as_str().substring_char(dot + 1, nlen).to_owned();
        proof {
            assert(has_interior_dot(name@));
            lemma_after_last_at(name@, '.', dot as int);
        }
        e
    } else {
        proof {
            assert(!has_interior_dot(name@)) by {
                if has_dot {
                    assert(forall|j: int| dot < j < nlen ==> name@[j] != '.');
                } else {
                    assert(forall|j: int| 0 <= j < nlen ==> name@[j] != '.');
                }
            }
        }
        let e = String::new();
        e
    };
    assert(ext@ == extension_of(filepath@));
    (name, ext)
}

} // verus!
