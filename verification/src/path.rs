//! POSIX paths as text: their components, file names and extensions.

use vstd::prelude::*;
use crate::text;

verus! {

/// How much of a path stands before its first ordinary component: the `/` of an absolute path,
/// or the `.` that starts a relative one.
pub open spec fn body_start(p: Seq<char>) -> nat {
    if p.len() > 0 && p[0] == '/' {
        1
    } else if p.len() > 0 && p[0] == '.' && (p.len() == 1 || p[1] == '/') {
        1
    } else {
        0
    }
}

/// Where the last component of a path starts.
pub open spec fn tail_start(p: Seq<char>) -> int {
    let base = body_start(p) as int;
    base + text::past_last(p.skip(base), '/')
}

/// The last component of a path, which may be empty.
pub open spec fn tail(p: Seq<char>) -> Seq<char> {
    p.skip(tail_start(p))
}

/// A path without its last component and the `/` before it.
pub open spec fn without_tail(p: Seq<char>) -> Seq<char> {
    if tail_start(p) > body_start(p) {
        p.take(tail_start(p) - 1)
    } else {
        p.take(tail_start(p))
    }
}

/// Whether a component says nothing: it is empty or `.`.
pub open spec fn is_void(component: Seq<char>) -> bool {
    component.len() == 0 || component == seq!['.']
}

/// The last component lies within the path, and cutting it off leaves a shorter path.
pub proof fn lemma_tail_start(p: Seq<char>)
    ensures
        body_start(p) <= tail_start(p) <= p.len(),
        body_start(p) <= p.len(),
        body_start(p) < p.len() ==> without_tail(p).len() < p.len(),
        body_start(p) <= without_tail(p).len() <= p.len(),
        without_tail(p) == p.take(without_tail(p).len() as int),
{
    let base = body_start(p) as int;
    text::lemma_past_last_is_last(p.skip(base), '/');
}

/// A path without the components at its end that say nothing.
pub open spec fn trimmed(p: Seq<char>) -> Seq<char>
    decreases p.len(),
{
    if body_start(p) < p.len() && is_void(tail(p)) {
        proof {
            lemma_tail_start(p);
        }
        trimmed(without_tail(p))
    } else {
        p
    }
}

/// The name of the file or directory that a path leads to: none for a root, a `.` or a `..`.
pub open spec fn file_name(p: Seq<char>) -> Option<Seq<char>> {
    let t = trimmed(p);
    if body_start(t) < t.len() && tail(t) != seq!['.', '.'] {
        Some(tail(t))
    } else {
        None
    }
}

/// The path without its last component: none for a root and an empty path.
pub open spec fn parent(p: Seq<char>) -> Option<Seq<char>> {
    let t = trimmed(p);
    if body_start(t) < t.len() {
        Some(trimmed(without_tail(t)))
    } else if t.len() > 0 && t[0] == '.' {
        Some(seq![])
    } else {
        None
    }
}

/// The index of the last `.` of a file name that has something before it: 0 if there is none.
pub open spec fn dot_index(name: Seq<char>) -> int {
    let k = text::past_last(name, '.');
    if k > 1 {
        k - 1
    } else {
        0
    }
}

/// What stands after the last `.` of the file name, if something stands before it.
pub open spec fn extension(p: Seq<char>) -> Option<Seq<char>> {
    match file_name(p) {
        Some(name) => if dot_index(name) > 0 {
            Some(name.skip(dot_index(name) + 1))
        } else {
            None
        },
        None => None,
    }
}

/// A file name without its extension and the `.` before it.
pub open spec fn stem_of(name: Seq<char>) -> Seq<char> {
    if dot_index(name) > 0 {
        name.take(dot_index(name))
    } else {
        name
    }
}

/// The file name without its extension.
pub open spec fn file_stem(p: Seq<char>) -> Option<Seq<char>> {
    match file_name(p) {
        Some(name) => Some(stem_of(name)),
        None => None,
    }
}

/// The path of the same file with another extension: the path itself if it names no file.
pub open spec fn with_extension(p: Seq<char>, ext: Seq<char>) -> Seq<char> {
    match file_name(p) {
        Some(name) => trimmed(p).take(tail_start(trimmed(p))) + stem_of(name) + seq!['.'] + ext,
        None => p,
    }
}

/// A path inside a directory: `q` itself if it is absolute.
pub open spec fn joined(p: Seq<char>, q: Seq<char>) -> Seq<char> {
    if q.len() > 0 && q[0] == '/' {
        q
    } else if p.len() > 0 && p.last() != '/' {
        p + seq!['/'] + q
    } else {
        p + q
    }
}

// ---------------------------------------------------------------------------------------------
// Computing them

fn start_of_body(chars: &[char], n: usize) -> (r: usize)
    requires
        n <= chars@.len(),
    ensures
        r == body_start(chars@.take(n as int)),
{
    if n > 0 && chars[0] == '/' {
        1
    } else if n > 0 && chars[0] == '.' && (n == 1 || chars[1] == '/') {
        1
    } else {
        0
    }
}

fn start_of_tail(chars: &[char], n: usize) -> (r: usize)
    requires
        n <= chars@.len(),
    ensures
        r == tail_start(chars@.take(n as int)),
        body_start(chars@.take(n as int)) <= r <= n,
{
    let base = start_of_body(chars, n);
    let ghost p = chars@.take(n as int);
    let ghost body = p.skip(base as int);
    let mut i: usize = n;
    while i > base && chars[i - 1] != '/'
        invariant
            base <= i <= n <= chars@.len(),
            p == chars@.take(n as int),
            body == p.skip(base as int),
            forall|j: int| i - base <= j < body.len() ==> body[j] != '/',
        decreases i,
    {
        assert(body[i - 1 - base] == chars@[i - 1]);
        i -= 1;
    }
    proof {
        if i > base {
            assert(body[i - base - 1] == chars@[i - 1]);
        }
        text::lemma_past_last(body, '/', (i - base) as nat);
    }
    i
}

/// How much of a path is left without the components at its end that say nothing.
fn trimmed_len(chars: &[char]) -> (r: usize)
    ensures
        r <= chars@.len(),
        trimmed(chars@) == chars@.take(r as int),
{
    let mut n: usize = chars.len();
    assert(chars@.take(n as int) == chars@);
    loop
        invariant
            n <= chars@.len(),
            trimmed(chars@.take(n as int)) == trimmed(chars@),
        decreases n,
    {
        let ghost p = chars@.take(n as int);
        let base = start_of_body(chars, n);
        let from = start_of_tail(chars, n);
        assert(tail(p) == chars@.subrange(from as int, n as int));
        let void: bool = from == n || (n - from == 1 && chars[from] == '.');
        proof {
            if n - from == 1 {
                assert(tail(p)[0] == chars@[from as int]);
                if chars@[from as int] == '.' {
                    assert(tail(p) == seq!['.']);
                }
            }
            assert(void == is_void(tail(p)));
        }
        if base < n && void {
            proof {
                lemma_tail_start(p);
            }
            let m: usize = if from > base { from - 1 } else { from };
            assert(chars@.take(m as int) == without_tail(p));
            n = m;
        } else {
            return n;
        }
    }
}

/// The file name of a path.
pub fn name_of(path: &str) -> (r: Option<String>)
    ensures
        match r {
            Some(name) => file_name(path@) == Some(name@),
            None => file_name(path@) is None,
        },
{
    let chars = text::chars_of(path);
    let n = trimmed_len(&chars);
    let ghost t = trimmed(path@);
    let base = start_of_body(&chars, n);
    let from = start_of_tail(&chars, n);
    assert(tail(t) == chars@.subrange(from as int, n as int));
    let up: bool = n - from == 2 && chars[from] == '.' && chars[from + 1] == '.';
    proof {
        if n - from == 2 {
            assert(tail(t)[0] == chars@[from as int]);
            assert(tail(t)[1] == chars@[from + 1]);
        }
        if up {
            assert(tail(t) == seq!['.', '.']);
        }
    }
    if base < n && !up {
        Some(text::slice_text(&chars, from, n))
    } else {
        None
    }
}

/// The path without its last component.
pub fn parent_of(path: &str) -> (r: Option<String>)
    ensures
        match r {
            Some(dir) => parent(path@) == Some(dir@),
            None => parent(path@) is None,
        },
{
    let chars = text::chars_of(path);
    let n = trimmed_len(&chars);
    let ghost t = trimmed(path@);
    let base = start_of_body(&chars, n);
    if base < n {
        let from = start_of_tail(&chars, n);
        let m: usize = if from > base { from - 1 } else { from };
        proof {
            lemma_tail_start(t);
            assert(chars@.take(m as int) == without_tail(t));
        }
        let head = text::slice_text(&chars, 0, m);
        assert(head@ == without_tail(t));
        let head_chars = text::chars_of(head.as_str());
        let k = trimmed_len(&head_chars);
        let r = text::slice_text(&head_chars, 0, k);
        assert(r@ == trimmed(without_tail(t)));
        Some(r)
    } else if n > 0 && chars[0] == '.' {
        let r = String::new();
        assert(r@ == Seq::<char>::empty());
        Some(r)
    } else {
        None
    }
}

fn find_dot(name: &[char]) -> (r: usize)
    ensures
        r == dot_index(name@),
        r < name@.len() || r == 0,
{
    let k = text::find_past_last(name, name.len(), '.');
    assert(name@.take(name@.len() as int) == name@);
    if k > 1 {
        k - 1
    } else {
        0
    }
}

/// The extension of a path.
pub fn extension_of(path: &str) -> (r: Option<String>)
    ensures
        match r {
            Some(ext) => extension(path@) == Some(ext@),
            None => extension(path@) is None,
        },
{
    match name_of(path) {
        Some(name) => {
            let chars = text::chars_of(name.as_str());
            let total: usize = chars.len();
            let dot = find_dot(&chars);
            if dot > 0 {
                let ext = text::slice_text(&chars, dot + 1, total);
                assert(ext@ == name@.skip(dot + 1));
                Some(ext)
            } else {
                None
            }
        },
        None => None,
    }
}

fn stem_text(name: &str) -> (r: String)
    ensures
        r@ == stem_of(name@),
{
    let chars = text::chars_of(name);
    let dot = find_dot(&chars);
    if dot > 0 {
        let stem = text::slice_text(&chars, 0, dot);
        assert(stem@ == name@.take(dot as int));
        stem
    } else {
        text::copy_of(name)
    }
}

/// The file name of a path without its extension.
pub fn stem_of_path(path: &str) -> (r: Option<String>)
    ensures
        match r {
            Some(stem) => file_stem(path@) == Some(stem@),
            None => file_stem(path@) is None,
        },
{
    match name_of(path) {
        Some(name) => Some(stem_text(name.as_str())),
        None => None,
    }
}

/// The path of the same file with another extension.
pub fn replace_extension(path: &str, ext: &str) -> (r: String)
    ensures
        r@ == with_extension(path@, ext@),
{
    match name_of(path) {
        Some(name) => {
            let chars = text::chars_of(path);
            let n = trimmed_len(&chars);
            let from = start_of_tail(&chars, n);
            let mut r = text::slice_text(&chars, 0, from);
            assert(r@ == trimmed(path@).take(tail_start(trimmed(path@))));
            r.append(stem_text(name.as_str()).as_str());
            r.push('.');
            r.append(ext);
            assert(r@ =~= with_extension(path@, ext@));
            r
        },
        None => text::copy_of(path),
    }
}

/// A path inside a directory.
pub fn join_paths(p: &str, q: &str) -> (r: String)
    ensures
        r@ == joined(p@, q@),
{
    let a = text::chars_of(p);
    let b = text::chars_of(q);
    if b.len() > 0 && b[0] == '/' {
        text::copy_of(q)
    } else {
        let mut r = text::copy_of(p);
        if a.len() > 0 && a[a.len() - 1] != '/' {
            r.push('/');
        }
        r.append(q);
        assert(r@ =~= joined(p@, q@));
        r
    }
}

// ---------------------------------------------------------------------------------------------
// What the paths are

/// A path inside a directory is the directory, a `/` unless one is there, and the path; an absolute
/// path stays as it is.
pub proof fn law_joining_puts_one_slash_between(p: Seq<char>, q: Seq<char>)
    requires
        q.len() > 0 ==> q[0] != '/',
    ensures
        p.len() > 0 && p.last() != '/' ==> joined(p, q) == p + seq!['/'] + q,
        p.len() > 0 && p.last() == '/' ==> joined(p, q) == p + q,
        p.len() == 0 ==> joined(p, q) == q,
        joined(p, seq!['/'] + q) == seq!['/'] + q,
{
    if p.len() == 0 {
        assert(p + q =~= q);
    }
}

/// A name that is put into a directory is the file name of what comes of it, and the directory is its
/// parent.
pub proof fn law_joined_name_is_the_file_name(p: Seq<char>, name: Seq<char>)
    requires
        p.len() > 0,
        p.last() != '/',
        name.len() > 0,
        !name.contains('/'),
        name != seq!['.'],
        name != seq!['.', '.'],
    ensures
        file_name(joined(p, name)) == Some(name),
        parent(joined(p, name)) == Some(trimmed(p)),
{
    assert(name[0] != '/') by {
        assert(name.contains(name[0]));
    }
    let q = p + seq!['/'] + name;
    assert(joined(p, name) == q);
    let base = body_start(q) as int;
    assert(base <= p.len());
    let body = q.skip(base);
    let k = p.len() - base;
    assert(body[k] == '/');
    assert forall|i: int| k < i < body.len() implies body[i] != '/' by {
        assert(body[i] == name[i - k - 1]);
        assert(name.contains(name[i - k - 1]));
    }
    text::lemma_past_last(body, '/', (k + 1) as nat);
    assert(tail_start(q) == p.len() + 1);
    assert(tail(q) =~= name);
    assert(trimmed(q) == q);
    assert(without_tail(q) =~= p);
}

/// A file name is its stem, a `.` and its extension, which holds no other `.`, or the stem alone where
/// there is no extension.
pub proof fn law_name_is_stem_and_extension(p: Seq<char>)
    ensures
        file_name(p) is Some <==> file_stem(p) is Some,
        extension(p) is Some ==> file_name(p) == Some(file_stem(p)->0 + seq!['.'] + extension(p)->0),
        extension(p) is Some ==> !extension(p)->0.contains('.') && file_stem(p)->0.len() > 0,
        file_name(p) is Some && extension(p) is None ==> file_stem(p) == file_name(p),
        file_name(p) is Some && extension(p) is None ==> forall|i: int|
            0 < i < file_name(p)->0.len() ==> file_name(p)->0[i] != '.',
{
    if file_name(p) is Some {
        let name = file_name(p)->0;
        text::lemma_past_last_is_last(name, '.');
        let k = dot_index(name);
        if k > 0 {
            assert(name =~= name.take(k) + seq!['.'] + name.skip(k + 1));
            let ext = name.skip(k + 1);
            if ext.contains('.') {
                let i = ext.index_of('.');
                assert(name[k + 1 + i] == '.');
            }
        }
    }
}

/// Another extension takes the place of the one behind the stem: what comes before the file name stays.
pub proof fn law_other_extension_keeps_the_stem(p: Seq<char>, ext: Seq<char>)
    requires
        file_name(p) is Some,
    ensures
        text::has_suffix(with_extension(p, ext), file_stem(p)->0 + seq!['.'] + ext),
        text::has_prefix(trimmed(p), with_extension(p, ext).take(
            with_extension(p, ext).len() - (file_stem(p)->0.len() + 1 + ext.len()),
        )),
        trimmed(p).len() - file_name(p)->0.len() == with_extension(p, ext).len() - (
        file_stem(p)->0.len() + 1 + ext.len()),
{
    let t = trimmed(p);
    lemma_tail_start(t);
    let head = t.take(tail_start(t));
    let end = stem_of(file_name(p)->0) + seq!['.'] + ext;
    let w = with_extension(p, ext);
    assert(w =~= head + end);
    assert(w.skip(w.len() - end.len()) =~= end);
    assert(w.take(w.len() - end.len()) =~= head);
    assert(t.take(head.len() as int) =~= head);
}

proof fn lemma_last_component(p: Seq<char>, component: Seq<char>)
    requires
        !component.contains('/'),
    ensures
        tail(p + seq!['/'] + component) == component,
        body_start(p + seq!['/'] + component) <= p.len() || p.len() == 0,
        p.len() > 0 ==> without_tail(p + seq!['/'] + component) == p,
        p.len() == 0 ==> without_tail(p + seq!['/'] + component) == seq!['/'] && body_start(
            p + seq!['/'] + component,
        ) == 1,
{
    let q = p + seq!['/'] + component;
    let base = body_start(q) as int;
    let body = q.skip(base);
    if p.len() == 0 {
        assert(q[0] == '/');
        assert(body =~= component);
        assert forall|i: int| 0 <= i < body.len() implies body[i] != '/' by {
            assert(component.contains(component[i]));
        }
        text::lemma_past_last(body, '/', 0);
        assert(tail(q) =~= component);
        assert(without_tail(q) =~= seq!['/']);
    } else {
        assert(base <= p.len());
        let k = p.len() - base;
        assert(body[k] == '/');
        assert forall|i: int| k < i < body.len() implies body[i] != '/' by {
            assert(body[i] == component[i - k - 1]);
            assert(component.contains(component[i - k - 1]));
        }
        text::lemma_past_last(body, '/', (k + 1) as nat);
        assert(tail_start(q) == p.len() + 1);
        assert(tail(q) =~= component);
        assert(without_tail(q) =~= p);
    }
}

/// A `/` or a `/.` at the end of a path says nothing: the file name, the parent and the extension are
/// those of the path without it.
pub proof fn law_trailing_slash_and_dot_say_nothing(p: Seq<char>)
    requires
        p.len() > 0,
    ensures
        trimmed(p + seq!['/']) == trimmed(p),
        trimmed(p + seq!['/', '.']) == trimmed(p),
        file_name(p + seq!['/']) == file_name(p),
        file_name(p + seq!['/', '.']) == file_name(p),
        parent(p + seq!['/']) == parent(p),
        parent(p + seq!['/', '.']) == parent(p),
        extension(p + seq!['/']) == extension(p),
        extension(p + seq!['/', '.']) == extension(p),
{
    let none = Seq::<char>::empty();
    let dot = seq!['.'];
    lemma_last_component(p, none);
    lemma_last_component(p, dot);
    assert(p + seq!['/'] + none =~= p + seq!['/']);
    assert(p + seq!['/'] + dot =~= p + seq!['/', '.']);
}

/// The last component of a path is its file name unless it is `..`, and what comes before is its
/// parent: the root where nothing does.
pub proof fn law_last_component_is_the_file_name(p: Seq<char>, name: Seq<char>)
    requires
        name.len() > 0,
        !name.contains('/'),
        name != seq!['.'],
    ensures
        trimmed(p + seq!['/'] + name) == p + seq!['/'] + name,
        name != seq!['.', '.'] ==> file_name(p + seq!['/'] + name) == Some(name),
        name == seq!['.', '.'] ==> file_name(p + seq!['/'] + name) is None,
        p.len() > 0 ==> parent(p + seq!['/'] + name) == Some(trimmed(p)),
        p.len() == 0 ==> parent(p + seq!['/'] + name) == Some(seq!['/']),
{
    lemma_last_component(p, name);
    if p.len() == 0 {
        assert(trimmed(seq!['/']) == seq!['/']);
    }
}

/// A path of one component has the empty path as its parent. The component is its file name unless it
/// is `.` or `..`. A root and an empty path have neither.
pub proof fn law_single_component_is_the_file_name(name: Seq<char>)
    requires
        !name.contains('/'),
    ensures
        trimmed(name) == name,
        name.len() > 0 && name != seq!['.'] && name != seq!['.', '.'] ==> file_name(name) == Some(name),
        name.len() == 0 || name == seq!['.'] || name == seq!['.', '.'] ==> file_name(name) is None,
        name.len() > 0 ==> parent(name) == Some(Seq::<char>::empty()),
        name.len() == 0 ==> parent(name) is None,
        file_name(seq!['/']) is None,
        parent(seq!['/']) is None,
{
    assert forall|i: int| 0 <= i < name.len() implies name[i] != '/' by {
        assert(name.contains(name[i]));
    }
    if name.len() > 0 {
        let base = body_start(name) as int;
        assert(base == 0 || name =~= seq!['.']);
        let body = name.skip(base);
        assert forall|i: int| 0 <= i < body.len() implies body[i] != '/' by {
            assert(body[i] == name[base + i]);
        }
        text::lemma_past_last(body, '/', 0);
        if base == 0 {
            assert(tail(name) =~= name);
            assert(name != seq!['.']) by {
                if name == seq!['.'] {
                    assert(name[0] == '.');
                }
            }
            assert(without_tail(name) =~= Seq::<char>::empty());
            assert(trimmed(Seq::<char>::empty()) =~= Seq::<char>::empty());
        } else {
            assert(seq!['.'].len() == 1 && seq!['.', '.'].len() == 2);
        }
    }
    assert(trimmed(seq!['/']) == seq!['/']);
}

} // verus!
