//! Preferences of dicing sprites stored as files, and the IDs given to such sprites.
use vstd::prelude::*;
use vstd::string::StrSliceExecFns;

verus! {

/// Supported encode formats for atlas textures.
#[derive(Debug, Clone, Copy, PartialEq, Eq, Structural)]
pub enum AtlasFormat {
    Png,
    Jpeg,
    Webp,
    Tga,
    Tiff,
}

impl AtlasFormat {
    /// File extension of the format.
    pub fn extension(&self) -> (r: &'static str)
        ensures
            r@ == format_extension(*self),
    {
        match self {
            AtlasFormat::Png => "png",
            AtlasFormat::Jpeg => "jpeg",
            AtlasFormat::Webp => "webp",
            AtlasFormat::Tga => "tga",
            AtlasFormat::Tiff => "tiff",
        }
    }
}

/// File extension of an atlas format.
pub open spec fn format_extension(f: AtlasFormat) -> Seq<char> {
    match f {
        AtlasFormat::Png => "png"@,
        AtlasFormat::Jpeg => "jpeg"@,
        AtlasFormat::Webp => "webp"@,
        AtlasFormat::Tga => "tga"@,
        AtlasFormat::Tiff => "tiff"@,
    }
}

/// Preferences for dicing operations involving file system access.
#[derive(Debug, Clone)]
pub struct FsPrefs {
    /// Directory path to write generated data; the input directory when not specified.
    pub out: Option<String>,
    /// Whether to look for textures in nested directories too.
    pub recursive: bool,
    /// Joins the path components of a nested sprite into its ID.
    pub separator: String,
    /// Format to encode generated atlas textures into.
    pub atlas_format: AtlasFormat,
}

impl Default for FsPrefs {
    fn default() -> (r: FsPrefs)
        ensures
            r.out is None,
            !r.recursive,
            r.separator@ == seq!['/'],
            r.atlas_format == AtlasFormat::Png,
    {
        let separator = String::from_str("/");
        proof {
            reveal_strlit("/");
        }
        FsPrefs { out: None, recursive: false, separator, atlas_format: AtlasFormat::Png }
    }
}

/// The segments of `p` between slashes, over its first `n` characters: the finished
/// non-empty segments, and the segment in progress.
pub open spec fn split_from(p: Seq<char>, n: nat) -> (Seq<Seq<char>>, Seq<char>)
    decreases n,
{
    if n == 0 {
        (seq![], seq![])
    } else {
        let (done, cur) = split_from(p, (n - 1) as nat);
        let c = p[n - 1];
        if c == '/' {
            if cur.len() > 0 {
                (done.push(cur), seq![])
            } else {
                (done, cur)
            }
        } else {
            (done, cur.push(c))
        }
    }
}

/// The components of a path: a root `/` when it starts with one, then its non-empty
/// segments between slashes.
pub open spec fn components(p: Seq<char>) -> Seq<Seq<char>> {
    let (done, cur) = split_from(p, p.len());
    let segs = if cur.len() > 0 {
        done.push(cur)
    } else {
        done
    };
    if p.len() > 0 && p[0] == '/' {
        seq![seq!['/']] + segs
    } else {
        segs
    }
}

/// Index of the last dot among the first `n` characters of `c`, or -1.
pub open spec fn last_dot(c: Seq<char>, n: nat) -> int
    decreases n,
{
    if n == 0 {
        -1
    } else if c[n - 1] == '.' {
        n - 1
    } else {
        last_dot(c, (n - 1) as nat)
    }
}

/// A file name without its extension: the part before the last dot, unless that dot starts
/// the name or the name is `..`.
pub open spec fn file_stem(c: Seq<char>) -> Seq<char> {
    let d = last_dot(c, c.len());
    if c == seq!['.', '.'] || d <= 0 {
        c
    } else {
        c.take(d)
    }
}

/// The parts joined with `sep` between each two.
pub open spec fn join(parts: Seq<Seq<char>>, sep: Seq<char>) -> Seq<char>
    decreases parts.len(),
{
    if parts.len() == 0 {
        seq![]
    } else if parts.len() == 1 {
        parts[0]
    } else {
        join(parts.drop_last(), sep) + sep + parts.last()
    }
}

/// The ID of the sprite at `path` under directory `root`: the components of `path` past those
/// of `root`, the last without its extension, joined with `sep`.
pub open spec fn sprite_id(root: Seq<char>, path: Seq<char>, sep: Seq<char>) -> Seq<char> {
    let comps = components(path);
    let n = comps.len();
    let named = if n > 0 && comps[n - 1] != seq!['/'] {
        comps.update(n - 1, file_stem(comps[n - 1]))
    } else {
        comps
    };
    let k = components(root).len();
    if k >= n {
        seq![]
    } else {
        join(named.skip(k as int), sep)
    }
}

/// Start and end, as character indices into `p`, of each component of `p`.
fn component_bounds(p: &str) -> (r: Vec<(usize, usize)>)
    ensures
        r@.len() == components(p@).len(),
        forall|k: int|
            0 <= k < r@.len() ==> {
                let (s, e) = #[trigger] r@[k];
                &&& s <= e <= p@.len()
                &&& p@.subrange(s as int, e as int) == components(p@)[k]
            },
{
    let n = p.unicode_len();
    let mut bounds: Vec<(usize, usize)> = Vec::new();
    let ghost rooted = p@.len() > 0 && p@[0] == '/';
    if n > 0 && p.get_char(0) == '/' {
        bounds.push((0, 1));
        assert(p@.subrange(0, 1) =~= seq!['/']);
    }
    let ghost head = bounds@;
    let mut start: usize = 0;
    let mut i: usize = 0;
    while i < n
        invariant
            n == p@.len(),
            i <= n,
            start <= i,
            head.len() == (if rooted { 1int } else { 0 }),
            rooted ==> head[0] == (0usize, 1usize),
            bounds@.len() == head.len() + split_from(p@, i as nat).0.len(),
            bounds@.take(head.len() as int) == head,
            forall|k: int|
                head.len() <= k < bounds@.len() ==> {
                    let (s, e) = #[trigger] bounds@[k];
                    &&& s <= e <= i
                    &&& p@.subrange(s as int, e as int) == split_from(p@, i as nat).0[k - head.len()]
                },
            split_from(p@, i as nat).1 == p@.subrange(start as int, i as int),
        decreases n - i,
    {
        let c = p.get_char(i);
        let ghost prev = split_from(p@, i as nat);
        assert(split_from(p@, (i + 1) as nat) == {
            let (done, cur) = prev;
            if c == '/' {
                if cur.len() > 0 {
                    (done.push(cur), seq![])
                } else {
                    (done, cur)
                }
            } else {
                (done, cur.push(c))
            }
        });
        if c == '/' {
            if start < i {
                let ghost old_bounds = bounds@;
                bounds.push((start, i));
                assert(bounds@.take(head.len() as int) =~= old_bounds.take(head.len() as int));
                assert forall|k: int| head.len() <= k < bounds@.len() implies {
                    let (s, e) = #[trigger] bounds@[k];
                    &&& s <= e <= i + 1
                    &&& p@.subrange(s as int, e as int) == split_from(p@, (i + 1) as nat).0[k - head.len()]
                } by {
                    if k < old_bounds.len() {
                        assert(bounds@[k] == old_bounds[k]);
                    }
                }
            }
            start = i + 1;
            assert(p@.subrange(start as int, (i + 1) as int) =~= seq![]);
        } else {
            assert(p@.subrange(start as int, (i + 1) as int) =~= p@.subrange(start as int, i as int).push(c));
        }
        i += 1;
    }
    let ghost done = split_from(p@, n as nat).0;
    if start < n {
        let ghost old_bounds = bounds@;
        bounds.push((start, n));
        assert(bounds@.take(head.len() as int) =~= old_bounds.take(head.len() as int));
    }
    proof {
        let comps = components(p@);
        let cur = split_from(p@, n as nat).1;
        let segs = if cur.len() > 0 {
            done.push(cur)
        } else {
            done
        };
        assert(bounds@.len() == comps.len());
        assert forall|k: int| 0 <= k < bounds@.len() implies {
            let (s, e) = #[trigger] bounds@[k];
            &&& s <= e <= p@.len()
            &&& p@.subrange(s as int, e as int) == comps[k]
        } by {
            if k < head.len() {
                assert(bounds@[k] == bounds@.take(head.len() as int)[k]);
                assert(comps[k] == seq!['/']);
            } else if k - head.len() < done.len() {
                assert(segs[k - head.len()] == done[k - head.len()]);
            }
        }
    }
    bounds
}

/// Evaluates the ID of the sprite at `path` under directory `root`, see [sprite_id].
pub fn eval_sprite_id(root: &str, path: &str, separator: &str) -> (id: String)
    ensures
        id@ == sprite_id(root@, path@, separator@),
{
    let root_count = component_bounds(root).len();
    let mut bounds = component_bounds(path);
    let n = bounds.len();
    let ghost comps = components(path@);
    if n > 0 {
        let (s, e) = bounds[n - 1];
        let ghost last = path@.subrange(s as int, e as int);
        let stem_end = stem_end(path, s, e);
        if !(e - s == 1 && path.get_char(s) == '/') {
            bounds.set(n - 1, (s, stem_end));
        }
        proof {
            if e - s == 1 && path@[s as int] == '/' {
                assert(last =~= seq!['/']);
            } else {
                if last == seq!['/'] {
                    assert(last[0] == '/');
                }
            }
        }
    }
    let ghost named = if n > 0 && comps[n - 1] != seq!['/'] {
        comps.update(n - 1, file_stem(comps[n - 1]))
    } else {
        comps
    };
    assert forall|k: int| 0 <= k < bounds@.len() implies {
        let (s, e) = #[trigger] bounds@[k];
        &&& s <= e <= path@.len()
        &&& path@.subrange(s as int, e as int) == named[k]
    } by {}
    proof {
        reveal_strlit("");
    }
    if root_count >= n {
        return String::from_str("");
    }
    let mut id = String::from_str("");
    assert(named.subrange(root_count as int, root_count as int) =~= seq![]);
    let mut k: usize = root_count;
    while k < n
        invariant
            root_count < n,
            root_count <= k <= n,
            n == bounds@.len(),
            n == named.len(),
            forall|j: int| 0 <= j < bounds@.len() ==> {
                let (s, e) = #[trigger] bounds@[j];
                &&& s <= e <= path@.len()
                &&& path@.subrange(s as int, e as int) == named[j]
            },
            id@ == join(named.subrange(root_count as int, k as int), separator@),
        decreases n - k,
    {
        let (s, e) = bounds[k];
        let part = path.substring_char(s, e);
        let ghost parts = named.subrange(root_count as int, (k + 1) as int);
        assert(parts.drop_last() =~= named.subrange(root_count as int, k as int));
        if k > root_count {
            id = id.concat(separator);
        }
        id = id.concat(part);
        proof {
            if k == root_count {
                assert(parts.len() == 1);
            }
        }
        k += 1;
    }
    assert(named.subrange(root_count as int, n as int) =~= named.skip(root_count as int));
    id
}

/// End of the stem of the name `path[s..e]`: the index of its last dot when that dot is not
/// its first character and the name is not `..`; else `e`.
fn stem_end(path: &str, s: usize, e: usize) -> (r: usize)
    requires
        s <= e <= path@.len(),
    ensures
        path@.subrange(s as int, r as int) == file_stem(path@.subrange(s as int, e as int)),
        s <= r <= e,
{
    let ghost name = path@.subrange(s as int, e as int);
    if e - s == 2 && path.get_char(s) == '.' && path.get_char(s + 1) == '.' {
        assert(name =~= seq!['.', '.']);
        return e;
    }
    assert(name != seq!['.', '.']) by {
        if name == seq!['.', '.'] {
            assert(name.len() == 2);
            assert(path@[s as int] == name[0]);
            assert(path@[s + 1] == name[1]);
        }
    }
    let mut j: usize = e;
    while j > s
        invariant
            s <= j <= e,
            e <= path@.len(),
            name == path@.subrange(s as int, e as int),
            name != seq!['.', '.'],
            last_dot(name, name.len()) == last_dot(name, (j - s) as nat),
        decreases j,
    {
        if path.get_char(j - 1) == '.' {
            assert(name[j - 1 - s] == '.');
            if j - 1 == s {
                return e;
            }
            assert(name.take((j - 1 - s) as int) =~= path@.subrange(s as int, (j - 1) as int));
            assert(last_dot(name, (j - s) as nat) == j - 1 - s);
            return j - 1;
        }
        assert(name[j - 1 - s] != '.');
        j -= 1;
    }
    e
}

} // verus!
