//! Slash-separated paths as character sequences: components, the normal
//! form, parents and children.
//!
//! A path is read as a run of components separated by `/`. Empty components
//! and `.` carry no meaning and are dropped; `..` is kept as it stands, since
//! only the file system knows where it leads.

use vstd::prelude::*;
use vstd::string::*;
use crate::text::chars_of;

verus! {

/// The views of a sequence of strings.
pub open spec fn views(v: Seq<String>) -> Seq<Seq<char>> {
    Seq::new(v.len(), |i: int| v[i]@)
}

/// A piece between two separators counts as a component unless it is empty
/// or a single dot.
pub open spec fn keeps(piece: Seq<char>) -> bool {
    piece.len() > 0 && piece != seq!['.']
}

/// Adds a finished piece to the components collected so far, if it counts.
pub open spec fn flush(done: Seq<Seq<char>>, piece: Seq<char>) -> Seq<Seq<char>> {
    if keeps(piece) {
        done.push(piece)
    } else {
        done
    }
}

/// Reads `s` from left to right: the components completed so far, and the
/// piece that is still open.
pub open spec fn scan(s: Seq<char>) -> (Seq<Seq<char>>, Seq<char>)
    decreases s.len(),
{
    if s.len() == 0 {
        (Seq::empty(), Seq::empty())
    } else {
        let before = scan(s.drop_last());
        if s.last() == '/' {
            (flush(before.0, before.1), Seq::empty())
        } else {
            (before.0, before.1.push(s.last()))
        }
    }
}

/// The components of a path, in order.
pub open spec fn components(s: Seq<char>) -> Seq<Seq<char>> {
    flush(scan(s).0, scan(s).1)
}

/// A path is absolute when it starts at the root.
pub open spec fn is_absolute(s: Seq<char>) -> bool {
    s.len() > 0 && s[0] == '/'
}

/// The components written one after the other with a separator between
/// neighbours.
pub open spec fn join_parts(parts: Seq<Seq<char>>) -> Seq<char>
    decreases parts.len(),
{
    if parts.len() == 0 {
        Seq::empty()
    } else if parts.len() == 1 {
        parts[0]
    } else {
        join_parts(parts.drop_last()) + seq!['/'] + parts.last()
    }
}

/// The text of the path with the given components: `/a/b` when absolute,
/// `a/b` when relative, and `.` for the relative path without components.
pub open spec fn render(absolute: bool, parts: Seq<Seq<char>>) -> Seq<char> {
    if absolute {
        seq!['/'] + join_parts(parts)
    } else if parts.len() == 0 {
        seq!['.']
    } else {
        join_parts(parts)
    }
}

/// The normal form of a path. It is made from the text alone: a relative
/// path stays relative, `..` stays where it is, and links are not looked
/// into. See `absolute_of` for the form that starts at the root.
pub open spec fn normalized(s: Seq<char>) -> Seq<char> {
    render(is_absolute(s), components(s))
}

/// The last component of a path, if it has one.
pub open spec fn base_of(s: Seq<char>) -> Option<Seq<char>> {
    if components(s).len() == 0 {
        None
    } else {
        Some(components(s).last())
    }
}

/// The path one level up, in normal form; none at the root.
pub open spec fn parent_of(s: Seq<char>) -> Option<Seq<char>> {
    if components(s).len() == 0 {
        None
    } else {
        Some(render(is_absolute(s), components(s).drop_last()))
    }
}

/// The path of the entry `name` inside the directory `dir`.
pub open spec fn child_of(dir: Seq<char>, name: Seq<char>) -> Seq<char> {
    if dir.len() == 0 {
        name
    } else if dir.last() == '/' {
        dir + name
    } else {
        dir + seq!['/'] + name
    }
}

/// Whether the characters `v[start..end]` form a component.
fn piece_counts(v: &Vec<char>, start: usize, end: usize) -> (r: bool)
    requires
        start <= end <= v.len(),
    ensures
        r == keeps(v@.subrange(start as int, end as int)),
{
    let ghost piece = v@.subrange(start as int, end as int);
    if end == start {
        false
    } else if end - start == 1 && v[start] == '.' {
        assert(piece =~= seq!['.']);
        false
    } else {
        assert(piece != seq!['.']) by {
            if piece.len() == 1 {
                assert(piece[0] == v@[start as int]);
                assert(seq!['.'][0] == '.');
            } else {
                assert(seq!['.'].len() == 1);
            }
        }
        true
    }
}

/// The components of a path, in order.
pub fn split_path(path: &str) -> (parts: Vec<String>)
    ensures
        views(parts@) == components(path@),
{
    let v = chars_of(path);
    let mut parts: Vec<String> = Vec::new();
    let mut start: usize = 0;
    let mut i: usize = 0;
    assert(v@.take(0) =~= Seq::<char>::empty());
    assert(views(parts@) =~= Seq::<Seq<char>>::empty());
    assert(v@.subrange(0, 0) =~= Seq::<char>::empty());
    while i < v.len()
        invariant
            start <= i <= v.len(),
            v@ == path@,
            scan(v@.take(i as int)).0 == views(parts@),
            scan(v@.take(i as int)).1 == v@.subrange(start as int, i as int),
        decreases v.len() - i,
    {
        let ghost before = views(parts@);
        proof {
            assert(v@.take(i + 1).drop_last() =~= v@.take(i as int));
            assert(v@.take(i + 1).last() == v@[i as int]);
        }
        if v[i] == '/' {
            if piece_counts(&v, start, i) {
                let piece = path.substring_char(start, i);
                parts.push(piece.to_owned());
                assert(views(parts@) =~= before.push(v@.subrange(start as int, i as int)));
            }
            start = i + 1;
            assert(v@.subrange(start as int, i + 1) =~= Seq::<char>::empty());
        } else {
            assert(v@.subrange(start as int, i + 1) =~= v@.subrange(start as int, i as int).push(
                v@[i as int],
            ));
        }
        i += 1;
    }
    assert(v@.take(i as int) =~= v@);
    let ghost before = views(parts@);
    if piece_counts(&v, start, i) {
        let piece = path.substring_char(start, i);
        parts.push(piece.to_owned());
        assert(views(parts@) =~= before.push(v@.subrange(start as int, i as int)));
    }
    parts
}

/// Whether a path starts at the root.
pub fn is_absolute_path(path: &str) -> (r: bool)
    ensures
        r == is_absolute(path@),
{
    path.unicode_len() > 0 && path.get_char(0) == '/'
}

/// The text of the path made of the first `upto` of the given components.
pub fn render_path(absolute: bool, parts: &Vec<String>, upto: usize) -> (r: String)
    requires
        upto <= parts.len(),
    ensures
        r@ == render(absolute, views(parts@).take(upto as int)),
{
    if !absolute && upto == 0 {
        proof {
            reveal_strlit(".");
        }
        let dot = String::from_str(".");
        assert(dot@ =~= seq!['.']);
        return dot;
    }
    proof {
        reveal_strlit("/");
    }
    let mut out = String::new();
    if absolute {
        out.append("/");
    }
    let ghost lead: Seq<char> = if absolute {
        seq!['/']
    } else {
        Seq::empty()
    };
    assert("/"@ =~= seq!['/']);
    assert(out@ =~= lead + join_parts(views(parts@).take(0)));
    let mut k: usize = 0;
    while k < upto
        invariant
            k <= upto <= parts.len(),
            "/"@ == seq!['/'],
            out@ == lead + join_parts(views(parts@).take(k as int)),
        decreases upto - k,
    {
        let ghost sofar = views(parts@).take(k as int);
        let ghost next = views(parts@).take(k + 1);
        proof {
            assert(next.drop_last() =~= sofar);
            assert(next.last() == parts@[k as int]@);
            if k == 0 {
                assert(next[0] == parts@[0]@);
                assert(join_parts(sofar) =~= Seq::<char>::empty());
            }
        }
        if k > 0 {
            out.append("/");
        }
        out.append(parts[k].as_str());
        assert(out@ =~= lead + join_parts(next));
        k += 1;
    }
    out
}

/// The normal form of a path: its components joined by single separators,
/// from the root if the path is absolute.
pub fn normalize(path: &str) -> (r: String)
    ensures
        r@ == normalized(path@),
{
    let parts = split_path(path);
    assert(views(parts@).take(parts.len() as int) =~= views(parts@));
    render_path(is_absolute_path(path), &parts, parts.len())
}

/// The last component of a path, if it has one.
pub fn base_name(path: &str) -> (r: Option<String>)
    ensures
        match r {
            Some(name) => base_of(path@) == Some(name@),
            None => base_of(path@) is None,
        },
{
    let parts = split_path(path);
    if parts.len() == 0 {
        None
    } else {
        Some(parts[parts.len() - 1].clone())
    }
}

/// The path one level up, in normal form; none for a path without
/// components.
pub fn parent(path: &str) -> (r: Option<String>)
    ensures
        match r {
            Some(up) => parent_of(path@) == Some(up@),
            None => parent_of(path@) is None,
        },
{
    let parts = split_path(path);
    if parts.len() == 0 {
        None
    } else {
        assert(views(parts@).take(parts.len() - 1) =~= views(parts@).drop_last());
        Some(render_path(is_absolute_path(path), &parts, parts.len() - 1))
    }
}

/// The path of the entry `name` inside the directory `dir`.
pub fn child_path(dir: &str, name: &str) -> (r: String)
    ensures
        r@ == child_of(dir@, name@),
{
    proof {
        reveal_strlit("/");
    }
    assert("/"@ =~= seq!['/']);
    let n = dir.unicode_len();
    let mut out = String::from_str(dir);
    if n > 0 && dir.get_char(n - 1) != '/' {
        out.append("/");
    }
    out.append(name);
    assert(out@ =~= child_of(dir@, name@));
    out
}

/// The path with every backslash turned into a slash.
pub open spec fn slashed(s: Seq<char>) -> Seq<char> {
    Seq::new(s.len(), |i: int| if s[i] == '\\' { '/' } else { s[i] })
}

/// The path with every backslash turned into a slash: the form in which
/// this library reads a path that was written with the other separator.
pub fn with_forward_slashes(path: &str) -> (r: String)
    ensures
        r@ == slashed(path@),
{
    proof {
        reveal_strlit("/");
    }
    assert("/"@ =~= seq!['/']);
    let v = chars_of(path);
    let mut out = String::new();
    let mut i: usize = 0;
    assert(out@ =~= slashed(path@).take(0));
    while i < v.len()
        invariant
            i <= v.len(),
            v@ == path@,
            "/"@ == seq!['/'],
            out@ == slashed(path@).take(i as int),
        decreases v.len() - i,
    {
        if v[i] == '\\' {
            out.append("/");
        } else {
            let one = path.substring_char(i, i + 1);
            assert(one@ =~= seq![v@[i as int]]);
            out.append(one);
        }
        assert(out@ =~= slashed(path@).take(i + 1));
        i += 1;
    }
    assert(slashed(path@).take(i as int) =~= slashed(path@));
    out
}

/// A component: not empty, not a single dot, and free of separators.
pub open spec fn is_component(piece: Seq<char>) -> bool {
    keeps(piece) && !piece.contains('/')
}

/// Every member of `parts` is a component.
pub open spec fn all_components(parts: Seq<Seq<char>>) -> bool {
    forall|i: int| 0 <= i < parts.len() ==> is_component(#[trigger] parts[i])
}

proof fn lemma_scan_shape(s: Seq<char>)
    ensures
        all_components(scan(s).0),
        !scan(s).1.contains('/'),
    decreases s.len(),
{
    if s.len() > 0 {
        lemma_scan_shape(s.drop_last());
    }
}

/// What `components` returns are components.
pub proof fn lemma_components_shape(s: Seq<char>)
    ensures
        all_components(components(s)),
{
    lemma_scan_shape(s);
}

proof fn lemma_scan_plain(x: Seq<char>)
    requires
        !x.contains('/'),
    ensures
        scan(x).0 == Seq::<Seq<char>>::empty(),
        scan(x).1 == x,
    decreases x.len(),
{
    if x.len() > 0 {
        assert(x.last() == x[x.len() - 1]);
        assert forall|c: char| x.drop_last().contains(c) implies x.contains(c) by {
            let i = choose|i: int| 0 <= i < x.drop_last().len() && x.drop_last()[i] == c;
            assert(x[i] == c);
        }
        lemma_scan_plain(x.drop_last());
        assert(scan(x).1 =~= x);
    } else {
        assert(scan(x).1 =~= x);
    }
}

proof fn lemma_scan_concat(a: Seq<char>, b: Seq<char>)
    ensures
        scan(a + seq!['/'] + b).0 == components(a) + scan(b).0,
        scan(a + seq!['/'] + b).1 == scan(b).1,
    decreases b.len(),
{
    let whole = a + seq!['/'] + b;
    if b.len() == 0 {
        assert(whole.drop_last() =~= a);
        assert(whole.last() == '/');
        assert(components(a) + scan(b).0 =~= components(a));
    } else {
        let shorter = a + seq!['/'] + b.drop_last();
        assert(whole.drop_last() =~= shorter);
        assert(whole.last() == b.last());
        lemma_scan_concat(a, b.drop_last());
        if b.last() == '/' {
            let before = scan(b.drop_last());
            assert(flush(components(a) + before.0, before.1) =~= components(a) + flush(
                before.0,
                before.1,
            ));
        }
    }
}

/// The components of `a/b` are those of `a` followed by those of `b`.
pub proof fn lemma_components_concat(a: Seq<char>, b: Seq<char>)
    ensures
        components(a + seq!['/'] + b) == components(a) + components(b),
{
    lemma_scan_concat(a, b);
    assert(flush(components(a) + scan(b).0, scan(b).1) =~= components(a) + flush(
        scan(b).0,
        scan(b).1,
    ));
}

proof fn lemma_join_roundtrip(parts: Seq<Seq<char>>)
    requires
        all_components(parts),
        parts.len() > 0,
    ensures
        components(join_parts(parts)) == parts,
        join_parts(parts).len() > 0,
        join_parts(parts)[0] != '/',
    decreases parts.len(),
{
    let last = parts.last();
    assert(is_component(parts[parts.len() - 1]));
    assert(last[0] != '/') by {
        if last[0] == '/' {
            assert(last.contains('/'));
        }
    }
    lemma_scan_plain(last);
    assert(components(last) =~= seq![last]);
    if parts.len() == 1 {
        assert(parts =~= seq![last]);
    } else {
        let front = parts.drop_last();
        assert(all_components(front)) by {
            assert forall|i: int| 0 <= i < front.len() implies is_component(
                #[trigger] front[i],
            ) by {
                assert(front[i] == parts[i]);
            }
        }
        lemma_join_roundtrip(front);
        lemma_components_concat(join_parts(front), last);
        assert(front + seq![last] =~= parts);
        assert(join_parts(parts)[0] == join_parts(front)[0]);
    }
}

/// Rendering components and reading the text again gives the same
/// components and the same anchoring.
pub proof fn lemma_render_roundtrip(absolute: bool, parts: Seq<Seq<char>>)
    requires
        all_components(parts),
    ensures
        components(render(absolute, parts)) == parts,
        is_absolute(render(absolute, parts)) == absolute,
{
    let text = render(absolute, parts);
    let nothing = Seq::<char>::empty();
    if parts.len() > 0 {
        lemma_join_roundtrip(parts);
    } else {
        assert(join_parts(parts) =~= nothing);
    }
    assert(components(nothing) =~= Seq::<Seq<char>>::empty());
    if absolute {
        assert(text =~= nothing + seq!['/'] + join_parts(parts));
        lemma_components_concat(nothing, join_parts(parts));
        assert(components(text) =~= parts);
        assert(text[0] == '/');
    } else if parts.len() == 0 {
        assert(!seq!['.'].contains('/')) by {
            if seq!['.'].contains('/') {
                let i = choose|i: int| 0 <= i < seq!['.'].len() && seq!['.'][i] == '/';
                assert(seq!['.'][i] == '.');
            }
        }
        lemma_scan_plain(seq!['.']);
        assert(components(text) =~= parts);
        assert(text[0] == '.');
    }
}

/// The absolute normal form of a path: the normal form of the path itself
/// if it starts at the root, else that of the path below the working
/// directory `cwd`.
pub open spec fn absolute_of(path: Seq<char>, cwd: Seq<char>) -> Seq<char> {
    if is_absolute(path) {
        normalized(path)
    } else {
        normalized(child_of(cwd, path))
    }
}

/// The absolute normal form of a path, for the given working directory.
pub fn absolute_form(path: &str, cwd: &str) -> (r: String)
    ensures
        r@ == absolute_of(path@, cwd@),
{
    if is_absolute_path(path) {
        normalize(path)
    } else {
        let joined = child_path(cwd, path);
        normalize(joined.as_str())
    }
}

/// The absolute normal form of each of the paths, in their order.
pub fn absolute_forms(paths: &Vec<String>, cwd: &str) -> (r: Vec<String>)
    ensures
        r.len() == paths.len(),
        forall|i: int| 0 <= i < paths.len() ==> (#[trigger] r[i])@ == absolute_of(paths[i]@, cwd@),
{
    let mut out: Vec<String> = Vec::new();
    let mut i: usize = 0;
    while i < paths.len()
        invariant
            i <= paths.len(),
            out.len() == i,
            forall|j: int| 0 <= j < i ==> (#[trigger] out[j])@ == absolute_of(paths[j]@, cwd@),
        decreases paths.len() - i,
    {
        out.push(absolute_form(paths[i].as_str(), cwd));
        i += 1;
    }
    out
}

/// With a working directory that starts at the root, the absolute normal
/// form starts at the root, is in normal form, and is the same for a path
/// and for its absolute normal form.
pub proof fn lemma_absolute_of_is_absolute(path: Seq<char>, cwd: Seq<char>)
    requires
        is_absolute(cwd),
    ensures
        is_absolute(absolute_of(path, cwd)),
        normalized(absolute_of(path, cwd)) == absolute_of(path, cwd),
        absolute_of(absolute_of(path, cwd), cwd) == absolute_of(path, cwd),
{
    lemma_normalized_idempotent(path);
    lemma_normalized_idempotent(child_of(cwd, path));
    assert(child_of(cwd, path)[0] == '/');
}

/// Whether a name is a component: not empty, not a single dot, and free of
/// separators.
pub fn is_component_name(name: &str) -> (r: bool)
    ensures
        r == is_component(name@),
{
    let v = chars_of(name);
    if !piece_counts(&v, 0, v.len()) {
        assert(v@.subrange(0, v.len() as int) =~= v@);
        return false;
    }
    assert(v@.subrange(0, v.len() as int) =~= v@);
    let mut i: usize = 0;
    while i < v.len()
        invariant
            i <= v.len(),
            v@ == name@,
            forall|j: int| 0 <= j < i ==> v@[j] != '/',
        decreases v.len() - i,
    {
        if v[i] == '/' {
            assert(v@.contains('/'));
            return false;
        }
        i += 1;
    }
    assert(!v@.contains('/')) by {
        if v@.contains('/') {
            let j = choose|j: int| 0 <= j < v@.len() && v@[j] == '/';
            assert(v@[j] != '/');
        }
    }
    true
}

/// The entry `name` of a directory has `name` as its base name.
pub proof fn lemma_base_of_child(dir: Seq<char>, name: Seq<char>)
    requires
        is_component(name),
    ensures
        base_of(child_of(dir, name)) == Some(name),
{
    lemma_scan_plain(name);
    assert(components(name) =~= seq![name]);
    if dir.len() == 0 {
    } else if dir.last() == '/' {
        assert(dir + name =~= dir.drop_last() + seq!['/'] + name);
        lemma_components_concat(dir.drop_last(), name);
    } else {
        lemma_components_concat(dir, name);
    }
}

/// Normalising twice changes nothing more.
pub proof fn lemma_normalized_idempotent(s: Seq<char>)
    ensures
        normalized(normalized(s)) == normalized(s),
        components(normalized(s)) == components(s),
        is_absolute(normalized(s)) == is_absolute(s),
{
    lemma_components_shape(s);
    lemma_render_roundtrip(is_absolute(s), components(s));
}

} // verus!
