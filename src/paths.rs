//! Virtual paths: a model of path strings with `/` as separator, and the
//! resolver that splits a path into a container file and the path inside it.
use vstd::prelude::*;

verus! {

/// Index of the last occurrence of `c` in `s`, or -1.
pub open spec fn last_index_of(s: Seq<char>, c: char) -> int
    decreases s.len(),
{
    if s.len() == 0 {
        -1
    } else if s.last() == c {
        s.len() - 1
    } else {
        last_index_of(s.drop_last(), c)
    }
}

/// `s` without one trailing separator.
pub open spec fn trimmed(s: Seq<char>) -> Seq<char> {
    if s.len() > 0 && s.last() == '/' {
        s.drop_last()
    } else {
        s
    }
}

/// The last segment of a path: what follows its last separator.
pub open spec fn file_name(s: Seq<char>) -> Seq<char> {
    s.subrange(last_index_of(s, '/') + 1, s.len() as int)
}

/// The directory part of a path: what precedes its last separator
/// (`/` for a segment under the root, empty for a bare segment).
pub open spec fn dir_of(s: Seq<char>) -> Seq<char> {
    let k = last_index_of(s, '/');
    if k < 0 {
        Seq::empty()
    } else if k == 0 {
        seq!['/']
    } else {
        s.subrange(0, k)
    }
}

/// The parent directory of a path, where it has one.
pub open spec fn parent_dir(s: Seq<char>) -> Option<Seq<char>> {
    if s.len() == 0 || s =~= seq!['/'] {
        None
    } else {
        Some(dir_of(s))
    }
}

/// The extension of a path's last segment: what follows its last dot,
/// where that dot is not the segment's first character.
pub open spec fn extension(s: Seq<char>) -> Option<Seq<char>> {
    let n = file_name(s);
    let d = last_index_of(n, '.');
    if d <= 0 {
        None
    } else {
        Some(n.subrange(d + 1, n.len() as int))
    }
}

/// The extensions of container files.
pub open spec fn is_container_ext(e: Seq<char>) -> bool {
    e =~= seq!['z', 'i', 'p'] || e =~= seq!['r', 'a', 'r'] || e =~= seq!['7', 'z']
}

/// Whether the path's extension names a container format.
pub open spec fn has_container_ext(s: Seq<char>) -> bool {
    match extension(s) {
        Some(e) => is_container_ext(e),
        None => false,
    }
}

/// A path joined with a relative path below it.
pub open spec fn joined(c: Seq<char>, i: Seq<char>) -> Seq<char> {
    if i.len() == 0 {
        c
    } else {
        c + seq!['/'] + i
    }
}

/// Whether `k` marks an ancestor of `s`: the end of the path, or the last
/// separator of a run of separators that a segment follows.
pub open spec fn is_cut(s: Seq<char>, k: int) -> bool {
    k == s.len() || (0 <= k < s.len() - 1 && s[k] == '/' && s[k + 1] != '/')
}

/// Where the run of separators that ends at `k` starts.
pub open spec fn run_start(s: Seq<char>, k: int) -> int
    decreases k,
{
    if 0 < k <= s.len() && s[k - 1] == '/' {
        run_start(s, k - 1)
    } else {
        k
    }
}

/// The length of the ancestor that cut point `k` marks: the whole path, or
/// what precedes the run of separators at `k`.
pub open spec fn container_end(s: Seq<char>, k: int) -> int {
    if k >= s.len() {
        s.len() as int
    } else {
        run_start(s, k)
    }
}

/// `n` separators.
pub open spec fn separators(n: nat) -> Seq<char> {
    Seq::new(n, |_i: int| '/')
}

/// The ancestor cut points of `s` up to `k`, from the longest down.
pub open spec fn cuts_from(s: Seq<char>, k: int) -> Seq<int>
    decreases k + 1,
{
    if k < 0 {
        Seq::empty()
    } else if is_cut(s, k) {
        seq![k] + cuts_from(s, k - 1)
    } else {
        cuts_from(s, k - 1)
    }
}

/// The lengths of the ancestors of `s`, from the path itself up to the root.
pub open spec fn ancestor_cuts(s: Seq<char>) -> Seq<int> {
    cuts_from(s, s.len() as int)
}

/// The path inside the container when `s` is cut at `k`.
pub open spec fn inner_at(s: Seq<char>, k: int) -> Seq<char> {
    if k >= s.len() {
        Seq::empty()
    } else {
        s.subrange(k + 1, s.len() as int)
    }
}

/// The ancestor of index `j` is a container: its extension is one of a
/// container format and it was found to be a regular file.
pub open spec fn qualifies(s: Seq<char>, real_files: Seq<bool>, j: int) -> bool {
    0 <= j < ancestor_cuts(s).len() && j < real_files.len() && real_files[j]
        && has_container_ext(s.subrange(0, container_end(s, ancestor_cuts(s)[j])))
}

/// What the resolver returns for `s`: nothing when no ancestor is a
/// container, else the split at the first one from the path upward.
pub open spec fn resolves_to(s: Seq<char>, real_files: Seq<bool>, r: Option<ContainerBoundary>) -> bool {
    match r {
        None => forall|j: int| !qualifies(s, real_files, j),
        Some(b) => exists|j: int|
            qualifies(s, real_files, j) && (forall|j2: int|
                0 <= j2 < j ==> !qualifies(s, real_files, j2)) && split_at_ancestor(s, j, b)
                && (b.inner_path@.len() > 0 ==> b.inner_path@[0] != '/'),
    }
}

/// A path split at the container file that holds the rest of it.
pub struct ContainerBoundary {
    pub container_path: String,
    pub inner_path: String,
}

/// The boundary that splits `s` at its ancestor of index `j`.
pub open spec fn split_at_ancestor(s: Seq<char>, j: int, b: ContainerBoundary) -> bool {
    b.container_path@ == s.subrange(0, container_end(s, ancestor_cuts(s)[j])) && b.inner_path@ == inner_at(
        s,
        ancestor_cuts(s)[j],
    )
}

proof fn lemma_last_index_bounds(s: Seq<char>, c: char)
    ensures
        -1 <= last_index_of(s, c) < s.len(),
        last_index_of(s, c) >= 0 ==> s[last_index_of(s, c)] == c,
        forall|i: int| last_index_of(s, c) < i < s.len() ==> s[i] != c,
    decreases s.len(),
{
    if s.len() > 0 && s.last() != c {
        let t = s.drop_last();
        lemma_last_index_bounds(t, c);
        assert forall|i: int| last_index_of(s, c) < i < s.len() implies s[i] != c by {
            if i < t.len() {
                assert(s[i] == t[i]);
            }
        }
    }
}

/// A path's last segment holds no separator.
pub proof fn lemma_file_name_has_no_separator(s: Seq<char>)
    ensures
        !file_name(s).contains('/'),
{
    lemma_last_index_bounds(s, '/');
}

proof fn lemma_cuts_from_bounds(s: Seq<char>, k: int)
    requires
        k <= s.len(),
    ensures
        forall|j: int|
            0 <= j < cuts_from(s, k).len() ==> 0 <= #[trigger] cuts_from(s, k)[j] <= k && is_cut(
                s,
                cuts_from(s, k)[j],
            ),
    decreases k + 1,
{
    if k >= 0 {
        lemma_cuts_from_bounds(s, k - 1);
        let rest = cuts_from(s, k - 1);
        if is_cut(s, k) {
            assert forall|j: int| 0 <= j < cuts_from(s, k).len() implies 0 <= #[trigger] cuts_from(
                s,
                k,
            )[j] <= k && is_cut(s, cuts_from(s, k)[j]) by {
                if j > 0 {
                    assert(cuts_from(s, k)[j] == rest[j - 1]);
                }
            }
        }
    }
}

proof fn lemma_run_start(s: Seq<char>, k: int)
    requires
        0 <= k <= s.len(),
    ensures
        0 <= run_start(s, k) <= k,
        forall|i: int| run_start(s, k) <= i < k ==> s[i] == '/',
    decreases k,
{
    if 0 < k && s[k - 1] == '/' {
        lemma_run_start(s, k - 1);
    }
}

/// Splitting at an ancestor gives back the path: the container path, a run
/// of separators and the path inside the container, which starts with no
/// separator; a path that is the container itself has an empty inner path.
pub proof fn lemma_split_joins(s: Seq<char>, j: int, b: ContainerBoundary)
    requires
        0 <= j < ancestor_cuts(s).len(),
        split_at_ancestor(s, j, b),
    ensures
        b.inner_path@.len() == 0 ==> b.container_path@ == s,
        b.inner_path@.len() > 0 ==> b.inner_path@[0] != '/' && exists|n: nat|
            n >= 1 && s == b.container_path@ + separators(n) + b.inner_path@,
{
    lemma_cuts_from_bounds(s, s.len() as int);
    let k = ancestor_cuts(s)[j];
    if k < s.len() {
        lemma_run_start(s, k);
        let r = run_start(s, k);
        let n = (k + 1 - r) as nat;
        assert(s.subrange(r, k + 1) =~= separators(n));
        assert(s =~= s.subrange(0, r) + separators(n) + s.subrange(k + 1, s.len() as int));
    } else {
        assert(s =~= s.subrange(0, k));
    }
}

/// The characters of a string, as a vector.
pub fn chars_of(s: &str) -> (r: Vec<char>)
    ensures
        r@ == s@,
{
    let n = s.unicode_len();
    let mut r: Vec<char> = Vec::new();
    let mut i: usize = 0;
    while i < n
        invariant
            n == s@.len(),
            i <= n,
            r@ == s@.subrange(0, i as int),
        decreases n - i,
    {
        r.push(s.get_char(i));
        i = i + 1;
        assert(r@ =~= s@.subrange(0, i as int));
    }
    assert(r@ =~= s@);
    r
}

fn last_index(s: &Vec<char>, c: char) -> (r: Option<usize>)
    ensures
        match r {
            Some(k) => k == last_index_of(s@, c),
            None => last_index_of(s@, c) == -1,
        },
{
    let mut i: usize = s.len();
    assert(s@.subrange(0, i as int) =~= s@);
    while i > 0
        invariant
            i <= s.len(),
            last_index_of(s@, c) == last_index_of(s@.subrange(0, i as int), c),
        decreases i,
    {
        let ghost sub = s@.subrange(0, i as int);
        if s[i - 1] == c {
            return Some(i - 1);
        }
        assert(sub.drop_last() =~= s@.subrange(0, i - 1));
        i = i - 1;
    }
    assert(s@.subrange(0, 0).len() == 0);
    None
}

pub fn substring(s: &str, from: usize, to: usize) -> (r: String)
    requires
        from <= to <= s@.len(),
    ensures
        r@ == s@.subrange(from as int, to as int),
{
    String::from_str(s.substring_char(from, to))
}

/// The last segment of a path.
pub fn path_file_name(s: &str) -> (r: String)
    ensures
        r@ == file_name(s@),
{
    let cs = chars_of(s);
    proof {
        lemma_last_index_bounds(s@, '/');
    }
    match last_index(&cs, '/') {
        Some(k) => substring(s, k + 1, cs.len()),
        None => substring(s, 0, cs.len()),
    }
}

/// The directory part of a path.
pub fn path_dir(s: &str) -> (r: String)
    ensures
        r@ == dir_of(s@),
{
    let cs = chars_of(s);
    proof {
        lemma_last_index_bounds(s@, '/');
    }
    match last_index(&cs, '/') {
        Some(k) => {
            if k == 0 {
                proof {
                    reveal_strlit("/");
                }
                String::from_str("/")
            } else {
                substring(s, 0, k)
            }
        },
        None => String::new(),
    }
}

/// The parent directory of a path, where it has one.
pub fn path_parent(s: &str) -> (r: Option<String>)
    ensures
        match r {
            Some(p) => parent_dir(s@) == Some(p@),
            None => parent_dir(s@) is None,
        },
{
    let cs = chars_of(s);
    if cs.len() == 0 || (cs.len() == 1 && cs[0] == '/') {
        proof {
            if cs.len() == 1 {
                assert(s@ =~= seq!['/']);
            }
        }
        None
    } else {
        proof {
            if s@ =~= seq!['/'] {
                assert(cs@.len() == 1 && cs@[0] == '/');
            }
        }
        Some(path_dir(s))
    }
}

/// `s` with one trailing separator removed.
pub fn path_trimmed(s: &str) -> (r: String)
    ensures
        r@ == trimmed(s@),
{
    let cs = chars_of(s);
    if cs.len() > 0 && cs[cs.len() - 1] == '/' {
        substring(s, 0, cs.len() - 1)
    } else {
        substring(s, 0, cs.len())
    }
}

/// A path joined with a relative path below it.
pub fn join_path(c: &str, i: &str) -> (r: String)
    ensures
        r@ == joined(c@, i@),
{
    let n = i.unicode_len();
    if n == 0 {
        String::from_str(c)
    } else {
        proof {
            reveal_strlit("/");
        }
        let mut r = String::from_str(c);
        r.append("/");
        r.append(i);
        r
    }
}

fn is_container_ext_exec(e: &Vec<char>, from: usize) -> (r: bool)
    requires
        from <= e@.len(),
    ensures
        r == is_container_ext(e@.subrange(from as int, e@.len() as int)),
{
    let n = e.len() - from;
    let ghost t = e@.subrange(from as int, e@.len() as int);
    if n == 3 && e[from] == 'z' && e[from + 1] == 'i' && e[from + 2] == 'p' {
        assert(t =~= seq!['z', 'i', 'p']);
        true
    } else if n == 3 && e[from] == 'r' && e[from + 1] == 'a' && e[from + 2] == 'r' {
        assert(t =~= seq!['r', 'a', 'r']);
        true
    } else if n == 2 && e[from] == '7' && e[from + 1] == 'z' {
        assert(t =~= seq!['7', 'z']);
        true
    } else {
        assert(!(t =~= seq!['z', 'i', 'p']) && !(t =~= seq!['r', 'a', 'r']) && !(t =~= seq![
            '7',
            'z',
        ])) by {
            if t =~= seq!['z', 'i', 'p'] {
                assert(t[0] == 'z' && t[1] == 'i' && t[2] == 'p');
            }
            if t =~= seq!['r', 'a', 'r'] {
                assert(t[0] == 'r' && t[1] == 'a' && t[2] == 'r');
            }
            if t =~= seq!['7', 'z'] {
                assert(t[0] == '7' && t[1] == 'z');
            }
        }
        false
    }
}

fn has_container_ext_prefix(s: &Vec<char>, k: usize) -> (r: bool)
    requires
        k <= s@.len(),
    ensures
        r == has_container_ext(s@.subrange(0, k as int)),
{
    let p = sub_vec(s, 0, k);
    proof {
        lemma_last_index_bounds(p@, '/');
    }
    let start: usize = match last_index(&p, '/') {
        Some(i) => i + 1,
        None => 0,
    };
    let name = sub_vec(&p, start, k);
    assert(name@ == file_name(p@));
    proof {
        lemma_last_index_bounds(name@, '.');
    }
    match last_index(&name, '.') {
        Some(d) => {
            if d == 0 {
                false
            } else {
                is_container_ext_exec(&name, d + 1)
            }
        },
        None => false,
    }
}

fn sub_vec(s: &Vec<char>, from: usize, to: usize) -> (r: Vec<char>)
    requires
        from <= to <= s@.len(),
    ensures
        r@ == s@.subrange(from as int, to as int),
{
    let mut r: Vec<char> = Vec::new();
    let mut i: usize = from;
    while i < to
        invariant
            from <= i <= to <= s@.len(),
            r@ == s@.subrange(from as int, i as int),
        decreases to - i,
    {
        r.push(s[i]);
        i = i + 1;
        assert(r@ =~= s@.subrange(from as int, i as int));
    }
    r
}

proof fn lemma_cuts_step(s: Seq<char>, done: Seq<int>, k: int)
    requires
        0 <= k <= s.len(),
        ancestor_cuts(s) == done + cuts_from(s, k),
    ensures
        is_cut(s, k) ==> ancestor_cuts(s) == done.push(k) + cuts_from(s, k - 1),
        !is_cut(s, k) ==> ancestor_cuts(s) == done + cuts_from(s, k - 1),
        is_cut(s, k) ==> ancestor_cuts(s)[done.len() as int] == k,
{
    if is_cut(s, k) {
        assert(done + cuts_from(s, k) =~= done.push(k) + cuts_from(s, k - 1));
    }
}

fn is_cut_exec(cs: &Vec<char>, k: usize) -> (r: bool)
    requires
        k <= cs@.len(),
    ensures
        r == is_cut(cs@, k as int),
{
    k == cs.len() || (k + 1 < cs.len() && cs[k] == '/' && cs[k + 1] != '/')
}

fn container_end_exec(cs: &Vec<char>, k: usize) -> (r: usize)
    requires
        k <= cs@.len(),
    ensures
        r == container_end(cs@, k as int),
        r <= k,
{
    if k >= cs.len() {
        return cs.len();
    }
    let mut i: usize = k;
    while i > 0 && cs[i - 1] == '/'
        invariant
            i <= k < cs@.len(),
            run_start(cs@, i as int) == run_start(cs@, k as int),
        decreases i,
    {
        i = i - 1;
    }
    i
}

/// The ancestors of a path, from the path itself up to the root.
pub fn path_ancestors(path: &str) -> (r: Vec<String>)
    ensures
        r@.len() == ancestor_cuts(path@).len(),
        forall|j: int|
            0 <= j < r@.len() ==> #[trigger] r@[j]@ == path@.subrange(
                0,
                container_end(path@, ancestor_cuts(path@)[j]),
            ),
{
    let cs = chars_of(path);
    let n = cs.len();
    let mut r: Vec<String> = Vec::new();
    let ghost mut done: Seq<int> = Seq::empty();
    let mut k: usize = n;
    assert(ancestor_cuts(path@) =~= done + cuts_from(path@, k as int));
    loop
        invariant_except_break
            ancestor_cuts(path@) == done + cuts_from(path@, k as int),
        invariant
            cs@ == path@,
            n == cs@.len(),
            k <= n,
            r@.len() == done.len(),
            forall|j: int| 0 <= j < done.len() ==> 0 <= #[trigger] done[j] <= n,
            forall|j: int|
                0 <= j < r@.len() ==> #[trigger] r@[j]@ == path@.subrange(
                    0,
                    container_end(path@, done[j]),
                ),
        ensures
            ancestor_cuts(path@) == done,
        decreases k,
    {
        proof {
            lemma_cuts_step(path@, done, k as int);
        }
        if is_cut_exec(&cs, k) {
            let ce = container_end_exec(&cs, k);
            r.push(substring(path, 0, ce));
            proof {
                done = done.push(k as int);
            }
        }
        if k == 0 {
            assert(cuts_from(path@, -1).len() == 0);
            assert(done =~= ancestor_cuts(path@));
            break;
        }
        k = k - 1;
    }
    r
}

/// Splits a path at the first of its ancestors, from the path itself
/// upward, whose extension is that of a container and which is a regular
/// file. `real_files[j]` tells whether the ancestor of index `j` (in the
/// order of `path_ancestors`) is a regular file; missing flags read as false.
pub fn split_archive_path(path: &str, real_files: &Vec<bool>) -> (r: Option<ContainerBoundary>)
    ensures
        resolves_to(path@, real_files@, r),
{
    let cs = chars_of(path);
    let n = cs.len();
    let ghost mut done: Seq<int> = Seq::empty();
    let mut count: usize = 0;
    let mut k: usize = n;
    assert(ancestor_cuts(path@) =~= done + cuts_from(path@, k as int));
    proof {
        lemma_cuts_from_bounds(path@, n as int);
    }
    loop
        invariant_except_break
            ancestor_cuts(path@) == done + cuts_from(path@, k as int),
        invariant
            cs@ == path@,
            n == cs@.len(),
            k <= n,
            count == done.len(),
            count <= real_files@.len(),
            forall|j: int| 0 <= j < count ==> !qualifies(path@, real_files@, j),
        ensures
            ancestor_cuts(path@) == done,
        decreases k,
    {
        proof {
            lemma_cuts_step(path@, done, k as int);
        }
        if is_cut_exec(&cs, k) {
            if count >= real_files.len() {
                assert forall|j: int| !qualifies(path@, real_files@, j) by {
                    if 0 <= j < count {
                    }
                }
                return None;
            }
            let ce = container_end_exec(&cs, k);
            if real_files[count] && has_container_ext_prefix(&cs, ce) {
                let container_path = substring(path, 0, ce);
                let inner_path = if k >= n {
                    String::new()
                } else {
                    substring(path, k + 1, n)
                };
                let b = ContainerBoundary { container_path, inner_path };
                assert(qualifies(path@, real_files@, count as int) && (forall|j2: int|
                    0 <= j2 < count ==> !qualifies(path@, real_files@, j2)) && split_at_ancestor(
                    path@,
                    count as int,
                    b,
                ));
                assert(resolves_to(path@, real_files@, Some(b)));
                return Some(b);
            }
            assert(!qualifies(path@, real_files@, count as int));
            proof {
                done = done.push(k as int);
            }
            count = count + 1;
        }
        if k == 0 {
            assert(cuts_from(path@, -1).len() == 0);
            assert(done =~= ancestor_cuts(path@));
            break;
        }
        k = k - 1;
    }
    assert forall|j: int| !qualifies(path@, real_files@, j) by {
        if 0 <= j < count {
        }
    }
    None
}

/// The resolver's law: a path that has no container ancestor that is a
/// regular file does not resolve; one that resolves is its container path,
/// then separators, then the path inside it, which is relative (it starts
/// with no separator) and empty where the path is the container itself;
/// that container is a regular file with a container extension.
pub proof fn lemma_resolve(path: Seq<char>, real_files: Seq<bool>, r: Option<ContainerBoundary>)
    requires
        resolves_to(path, real_files, r),
    ensures
        (forall|j: int| !qualifies(path, real_files, j)) <==> r is None,
        r matches Some(b) ==> has_container_ext(b.container_path@) && (exists|j: int|
            #![auto]
            0 <= j < real_files.len() && real_files[j] && b.container_path@ == path.subrange(
                0,
                container_end(path, ancestor_cuts(path)[j]),
            )) && (b.inner_path@.len() == 0 ==> b.container_path@ == path) && (b.inner_path@.len()
            > 0 ==> b.inner_path@[0] != '/' && exists|n: nat|
            n >= 1 && path == b.container_path@ + separators(n) + b.inner_path@),
{
    if let Some(b) = r {
        let j = choose|j: int|
            qualifies(path, real_files, j) && (forall|j2: int|
                0 <= j2 < j ==> !qualifies(path, real_files, j2)) && split_at_ancestor(path, j, b);
        lemma_split_joins(path, j, b);
    }
}

/// Whether the path's extension is that of a container.
pub fn path_has_container_ext(s: &str) -> (r: bool)
    ensures
        r == has_container_ext(s@),
{
    let cs = chars_of(s);
    assert(cs@.subrange(0, cs@.len() as int) =~= s@);
    has_container_ext_prefix(&cs, cs.len())
}

/// The extension of a path's last segment, where it has one.
pub fn path_extension(s: &str) -> (r: Option<String>)
    ensures
        match r {
            Some(e) => extension(s@) == Some(e@),
            None => extension(s@) is None,
        },
{
    let name = path_file_name(s);
    let cs = chars_of(name.as_str());
    proof {
        lemma_last_index_bounds(cs@, '.');
    }
    match last_index(&cs, '.') {
        Some(d) => {
            if d == 0 {
                None
            } else {
                Some(substring(name.as_str(), d + 1, cs.len()))
            }
        },
        None => None,
    }
}

/// Whether `p` lies strictly below `root`.
pub open spec fn is_below(root: Seq<char>, p: Seq<char>) -> bool {
    p.len() > root.len() && p.subrange(0, root.len() as int) == root && p[root.len() as int] == '/'
}

pub fn is_below_exec(root: &Vec<char>, p: &Vec<char>) -> (r: bool)
    ensures
        r == is_below(root@, p@),
{
    if p.len() <= root.len() {
        return false;
    }
    let mut i: usize = 0;
    while i < root.len()
        invariant
            root@.len() < p@.len(),
            i <= root@.len(),
            forall|j: int| 0 <= j < i ==> p@[j] == root@[j],
        decreases root@.len() - i,
    {
        if p[i] != root[i] {
            assert(p@.subrange(0, root@.len() as int)[i as int] != root@[i as int]);
            return false;
        }
        i = i + 1;
    }
    assert(p@.subrange(0, root@.len() as int) =~= root@);
    p[root.len()] == '/'
}

/// Index of the first occurrence of `c` in `s`, or -1.
pub open spec fn first_index_of(s: Seq<char>, c: char) -> int
    decreases s.len(),
{
    if s.len() == 0 {
        -1
    } else if s[0] == c {
        0
    } else {
        let k = first_index_of(s.drop_first(), c);
        if k < 0 {
            -1
        } else {
            k + 1
        }
    }
}

/// The first occurrence is where `c` stands with no `c` before it.
pub proof fn lemma_first_index(s: Seq<char>, c: char, k: int)
    requires
        (0 <= k < s.len() && s[k] == c && forall|i: int| 0 <= i < k ==> s[i] != c) || (k == -1
            && forall|i: int| 0 <= i < s.len() ==> s[i] != c),
    ensures
        first_index_of(s, c) == k,
    decreases s.len(),
{
    if s.len() > 0 && s[0] != c {
        let t = s.drop_first();
        if k == -1 {
            assert forall|i: int| 0 <= i < t.len() implies t[i] != c by {
                assert(t[i] == s[i + 1]);
            }
            lemma_first_index(t, c, -1);
        } else {
            assert forall|i: int| 0 <= i < k - 1 implies t[i] != c by {
                assert(t[i] == s[i + 1]);
            }
            assert(t[k - 1] == s[k]);
            lemma_first_index(t, c, k - 1);
        }
    }
}

/// The first index of `c` in `s`.
pub fn first_index(s: &Vec<char>, c: char) -> (r: Option<usize>)
    ensures
        match r {
            Some(k) => k == first_index_of(s@, c),
            None => first_index_of(s@, c) == -1,
        },
{
    let mut i: usize = 0;
    while i < s.len()
        invariant
            i <= s@.len(),
            forall|j: int| 0 <= j < i ==> s@[j] != c,
        decreases s@.len() - i,
    {
        if s[i] == c {
            proof {
                lemma_first_index(s@, c, i as int);
            }
            return Some(i);
        }
        i = i + 1;
    }
    proof {
        lemma_first_index(s@, c, -1);
    }
    None
}

/// The strings of a vector, over plain values.
pub open spec fn strings_view(v: Seq<String>) -> Seq<Seq<char>> {
    v.map_values(|s: String| s@)
}

/// Whether a vector of strings holds `s`.
pub fn contains_string(v: &Vec<String>, s: &String) -> (r: bool)
    ensures
        r == strings_view(v@).contains(s@),
{
    let mut i: usize = 0;
    while i < v.len()
        invariant
            i <= v@.len(),
            forall|j: int| 0 <= j < i ==> v@[j]@ != s@,
        decreases v@.len() - i,
    {
        if v[i] == *s {
            assert(strings_view(v@)[i as int] == s@);
            return true;
        }
        i = i + 1;
    }
    assert forall|j: int| 0 <= j < strings_view(v@).len() implies strings_view(v@)[j] != s@ by {
        assert(strings_view(v@)[j] == v@[j]@);
    }
    false
}

pub proof fn lemma_strings_view_push(v: Seq<String>, s: String)
    ensures
        strings_view(v.push(s)) == strings_view(v).push(s@),
{
    assert(strings_view(v.push(s)) =~= strings_view(v).push(s@));
}

} // verus!
