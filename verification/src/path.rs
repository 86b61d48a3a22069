//! What a file's path says about its kind.
//!
//! The kind of a file is read from the extension of its name: the characters
//! after the last dot of the last component of the path. Components are
//! separated by `/`; slashes at the end of a path do not count, nor does a
//! last component that is a single dot. A name without a dot has no
//! extension, and neither has a name whose only dot is its first character.

use vstd::prelude::*;

verus! {

/// The lower-case form of an ASCII capital letter; any other character as it
/// is.
pub open spec fn lower(c: char) -> char {
    if 'A' <= c <= 'Z' {
        ((c as u8) + 32) as char
    } else {
        c
    }
}

/// `path` with its ASCII capital letters in lower case.
pub open spec fn lowered(path: Seq<char>) -> Seq<char> {
    path.map_values(|c: char| lower(c))
}

/// The position of the last `c` in `text`, or -1 if there is none.
pub open spec fn last_index_of(text: Seq<char>, c: char) -> int
    decreases text.len(),
{
    if text.len() == 0 {
        -1
    } else if text.last() == c {
        text.len() - 1
    } else {
        last_index_of(text.drop_last(), c)
    }
}

/// Whether `path` ends in what does not belong to a file's name: a `/`, or a
/// dot that stands alone behind a `/`.
pub open spec fn ends_loosely(path: Seq<char>) -> bool {
    path.len() > 0 && (path.last() == '/' || (path.len() >= 2 && path.last() == '.'
        && path[path.len() - 2] == '/'))
}

/// `path` without the slashes and single dots that follow its last name.
pub open spec fn trimmed(path: Seq<char>) -> Seq<char>
    decreases path.len(),
{
    if ends_loosely(path) {
        trimmed(path.drop_last())
    } else {
        path
    }
}

/// The last component of `path`: what follows the last `/` of the trimmed
/// path.
pub open spec fn file_name(path: Seq<char>) -> Seq<char> {
    let path = trimmed(path);
    path.subrange(last_index_of(path, '/') + 1, path.len() as int)
}

/// The extension of the file that `path` names, without the dot; empty if the
/// name has none.
pub open spec fn extension(path: Seq<char>) -> Seq<char> {
    let name = file_name(path);
    let dot = last_index_of(name, '.');
    if dot > 0 {
        name.subrange(dot + 1, name.len() as int)
    } else {
        Seq::empty()
    }
}

/// Whether `ext` is the extension of a kind of source file that is split along
/// its syntax: `rs`, `py`, `js`, `ts` or `tsx`.
pub open spec fn is_code_extension(ext: Seq<char>) -> bool {
    ||| ext == seq!['r', 's']
    ||| ext == seq!['p', 'y']
    ||| ext == seq!['j', 's']
    ||| ext == seq!['t', 's']
    ||| ext == seq!['t', 's', 'x']
}

/// Whether `path` names a source file.
pub open spec fn is_code_path(path: Seq<char>) -> bool {
    is_code_extension(extension(path))
}

/// The ending of the path of a notebook.
pub open spec fn notebook_suffix() -> Seq<char> {
    seq!['.', 'i', 'p', 'y', 'n', 'b']
}

/// Whether `path` names a notebook: whether it ends in `.ipynb`.
pub open spec fn is_notebook_path(path: Seq<char>) -> bool {
    notebook_suffix().is_suffix_of(path)
}

/// Where the last `c` of a text is: no `c` comes after it.
pub proof fn lemma_last_index_of(text: Seq<char>, c: char)
    ensures
        -1 <= last_index_of(text, c) < text.len(),
        last_index_of(text, c) >= 0 ==> text[last_index_of(text, c)] == c,
        forall|i: int| last_index_of(text, c) < i < text.len() ==> text[i] != c,
    decreases text.len(),
{
    if text.len() > 0 && text.last() != c {
        lemma_last_index_of(text.drop_last(), c);
        assert forall|i: int| last_index_of(text, c) < i < text.len() implies text[i] != c by {
            if i < text.len() - 1 {
                assert(text.drop_last()[i] == text[i]);
            }
        }
    }
}

/// A position that holds `c` and has no `c` after it is the last `c`.
pub proof fn lemma_last_index_is(text: Seq<char>, c: char, at: int)
    requires
        -1 <= at < text.len(),
        at >= 0 ==> text[at] == c,
        forall|i: int| at < i < text.len() ==> text[i] != c,
    ensures
        last_index_of(text, c) == at,
{
    lemma_last_index_of(text, c);
}

/// The extension of a source file has two or three characters.
pub proof fn lemma_code_extension_len(ext: Seq<char>)
    ensures
        is_code_extension(ext) ==> ext.len() == 2 || ext.len() == 3,
{
    assert(seq!['r', 's'].len() == 2);
    assert(seq!['p', 'y'].len() == 2);
    assert(seq!['j', 's'].len() == 2);
    assert(seq!['t', 's'].len() == 2);
    assert(seq!['t', 's', 'x'].len() == 3);
}

/// `chars` with its ASCII capital letters in lower case.
pub fn lowercase(chars: &Vec<char>) -> (out: Vec<char>)
    ensures
        out@ == lowered(chars@),
{
    let mut out: Vec<char> = Vec::new();
    let mut i: usize = 0;
    while i < chars.len()
        invariant
            i <= chars.len(),
            out@.len() == i,
            forall|k: int| 0 <= k < i ==> out@[k] == lower(chars@[k]),
        decreases chars.len() - i,
    {
        let c: char = chars[i];
        if 'A' <= c && c <= 'Z' {
            out.push(((c as u8) + 32u8) as char);
        } else {
            out.push(c);
        }
        i = i + 1;
    }
    assert(out@ =~= lowered(chars@));
    out
}

/// The position of the last `c` in `chars[from..to]`, counted from the start
/// of `chars`.
fn find_last(chars: &Vec<char>, from: usize, to: usize, c: char) -> (found: Option<usize>)
    requires
        from <= to <= chars.len(),
    ensures
        match found {
            Some(at) => from <= at < to && last_index_of(chars@.subrange(from as int, to as int), c)
                == at - from,
            None => last_index_of(chars@.subrange(from as int, to as int), c) == -1,
        },
{
    let ghost part = chars@.subrange(from as int, to as int);
    let mut i: usize = to;
    while i > from
        invariant
            from <= i <= to <= chars.len(),
            part == chars@.subrange(from as int, to as int),
            forall|k: int| i - from <= k < part.len() ==> part[k] != c,
        decreases i,
    {
        i = i - 1;
        if chars[i] == c {
            proof {
                assert(part[i - from] == c);
                lemma_last_index_is(part, c, i - from);
            }
            return Some(i);
        }
    }
    proof {
        lemma_last_index_is(part, c, -1);
    }
    None
}

/// Whether the characters `chars` are the path of a source file.
pub fn is_code_chars(chars: &Vec<char>) -> (code: bool)
    ensures
        code == is_code_path(chars@),
{
    let mut len: usize = chars.len();
    assert(chars@.take(len as int) =~= chars@);
    while len > 0 && (chars[len - 1] == '/' || (len >= 2 && chars[len - 1] == '.' && chars[len
        - 2] == '/'))
        invariant
            len <= chars.len(),
            trimmed(chars@) == trimmed(chars@.take(len as int)),
        decreases len,
    {
        assert(chars@.take(len as int).drop_last() =~= chars@.take(len - 1));
        len = len - 1;
    }
    assert(trimmed(chars@) == chars@.take(len as int));
    assert(chars@.take(len as int) =~= chars@.subrange(0, len as int));
    let start: usize = match find_last(chars, 0, len, '/') {
        Some(at) => at + 1,
        None => 0,
    };
    let ghost name = file_name(chars@);
    assert(name == chars@.subrange(start as int, len as int));
    let dot: usize = match find_last(chars, start, len, '.') {
        Some(at) => at,
        None => {
            proof {
                lemma_code_extension_len(extension(chars@));
            }
            return false;
        },
    };
    if dot == start {
        proof {
            lemma_code_extension_len(extension(chars@));
        }
        return false;
    }
    let from: usize = dot + 1;
    let ghost ext = extension(chars@);
    assert(ext =~= chars@.subrange(from as int, len as int));
    let n: usize = len - from;
    let code = if n == 2 {
        let a: char = chars[from];
        let b: char = chars[from + 1];
        assert(ext =~= seq![a, b]);
        (a == 'r' && b == 's') || (a == 'p' && b == 'y') || (a == 'j' && b == 's') || (a == 't'
            && b == 's')
    } else if n == 3 {
        let a: char = chars[from];
        let b: char = chars[from + 1];
        let c: char = chars[from + 2];
        assert(ext =~= seq![a, b, c]);
        a == 't' && b == 's' && c == 'x'
    } else {
        false
    };
    proof {
        lemma_code_extension_len(ext);
        if n == 2 {
            assert(seq!['r', 's'][0] == 'r' && seq!['r', 's'][1] == 's');
            assert(seq!['p', 'y'][0] == 'p' && seq!['p', 'y'][1] == 'y');
            assert(seq!['j', 's'][0] == 'j' && seq!['j', 's'][1] == 's');
            assert(seq!['t', 's'][0] == 't' && seq!['t', 's'][1] == 's');
        }
        if n == 3 {
            assert(seq!['t', 's', 'x'][0] == 't' && seq!['t', 's', 'x'][1] == 's' && seq![
                't',
                's',
                'x',
            ][2] == 'x');
        }
    }
    code
}

/// Whether the characters `chars` are the path of a notebook.
pub fn is_notebook_chars(chars: &Vec<char>) -> (notebook: bool)
    ensures
        notebook == is_notebook_path(chars@),
{
    let len: usize = chars.len();
    if len < 6 {
        assert(notebook_suffix().len() == 6);
        return false;
    }
    let from: usize = len - 6;
    let notebook = chars[from] == '.' && chars[from + 1] == 'i' && chars[from + 2] == 'p'
        && chars[from + 3] == 'y' && chars[from + 4] == 'n' && chars[from + 5] == 'b';
    proof {
        let suffix = notebook_suffix();
        assert(suffix.len() == 6);
        assert(suffix[0] == '.' && suffix[1] == 'i' && suffix[2] == 'p' && suffix[3] == 'y'
            && suffix[4] == 'n' && suffix[5] == 'b');
        let tail = chars@.subrange(len - 6, len as int);
        assert(suffix.is_suffix_of(chars@) <==> suffix == tail);
        if notebook {
            assert(suffix =~= tail);
        } else {
            assert(tail[0] == chars@[from as int]);
            assert(tail[1] == chars@[from + 1]);
            assert(tail[2] == chars@[from + 2]);
            assert(tail[3] == chars@[from + 3]);
            assert(tail[4] == chars@[from + 4]);
            assert(tail[5] == chars@[from + 5]);
        }
    }
    notebook
}

} // verus!
