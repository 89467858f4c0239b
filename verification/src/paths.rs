use vstd::prelude::*;

use crate::history::is_absolute;
use crate::markov::{owned, same_strings, strings_view};
use crate::text::chars_of;

verus! {

/// The parts seen so far with the part being read appended, unless that part
/// is empty (a repeated or trailing `/`) or `.` (the current directory).
pub open spec fn flush(done: Seq<Seq<char>>, cur: Seq<char>) -> Seq<Seq<char>> {
    if cur.len() == 0 || cur == seq!['.'] {
        done
    } else {
        done.push(cur)
    }
}

/// Reading `s` from the left: the parts completed so far and the part being
/// read.
pub open spec fn scan(s: Seq<char>) -> (Seq<Seq<char>>, Seq<char>)
    decreases s.len(),
{
    if s.len() == 0 {
        (Seq::empty(), Seq::empty())
    } else {
        let (d, c) = scan(s.drop_last());
        if s.last() == '/' {
            (flush(d, c), Seq::empty())
        } else {
            (d, c.push(s.last()))
        }
    }
}

/// The named parts of path `s`, in order: what lies between the `/`s, with
/// empty parts and `.` left out (`..` is kept).
pub open spec fn normal_parts(s: Seq<char>) -> Seq<Seq<char>> {
    flush(scan(s).0, scan(s).1)
}

/// Whether the relative path `s` starts with the current directory, `.`.
pub open spec fn leading_dot(s: Seq<char>) -> bool {
    s.len() > 0 && s[0] == '.' && (s.len() == 1 || s[1] == '/')
}

/// The components of path `s`, as `Path::components` gives them on Unix:
/// whether it starts at the root, whether it starts with `.`, and its named
/// parts. Repeated and trailing `/` and inner `.` make no difference.
pub open spec fn path_components(s: Seq<char>) -> (bool, bool, Seq<Seq<char>>) {
    (is_absolute(s), leading_dot(s), normal_parts(s))
}

/// Two paths name the same directory as `Path` compares them: by their
/// components.
pub open spec fn same_dir(a: Seq<char>, b: Seq<char>) -> bool {
    path_components(a) == path_components(b)
}

/// The parts joined by `/`.
pub open spec fn joined_parts(parts: Seq<Seq<char>>) -> Seq<char>
    decreases parts.len(),
{
    if parts.len() == 0 {
        Seq::empty()
    } else if parts.len() == 1 {
        parts[0]
    } else {
        joined_parts(parts.drop_last()) + seq!['/'] + parts.last()
    }
}

/// The path written from its components, as a `PathBuf` collected from
/// them: `/` for the root, `.` for a leading current directory, then the
/// parts joined by `/`.
pub open spec fn dir_text(s: Seq<char>) -> Seq<char> {
    let parts = normal_parts(s);
    if is_absolute(s) {
        seq!['/'] + joined_parts(parts)
    } else if leading_dot(s) {
        if parts.len() == 0 {
            seq!['.']
        } else {
            seq!['.', '/'] + joined_parts(parts)
        }
    } else {
        joined_parts(parts)
    }
}

/// Reading on after a `/` through a part without `/`: the parts so far are
/// those of `s`, and the part being read is the one read after the `/`.
proof fn lemma_scan_after_slash(s: Seq<char>, c: Seq<char>)
    requires
        forall|k: int| 0 <= k < c.len() ==> c[k] != '/',
    ensures
        scan(s + seq!['/'] + c) == (normal_parts(s), c),
    decreases c.len(),
{
    if c.len() == 0 {
        assert(s + seq!['/'] + c =~= s.push('/'));
        assert((s + seq!['/'] + c).drop_last() =~= s);
    } else {
        let d = c.drop_last();
        lemma_scan_after_slash(s, d);
        assert((s + seq!['/'] + c).drop_last() =~= s + seq!['/'] + d);
        assert((s + seq!['/'] + c).last() == c.last());
        assert(d.push(c.last()) =~= c);
    }
}

/// The named parts of a path grow one at a time: after a `/`, a part that
/// is neither empty nor `.` (and holds no `/`) is the path's next named part;
/// `..` and names starting with `.` included.
pub proof fn lemma_parts_push(s: Seq<char>, c: Seq<char>)
    requires
        c.len() > 0,
        c != seq!['.'],
        forall|k: int| 0 <= k < c.len() ==> c[k] != '/',
    ensures
        normal_parts(s + seq!['/'] + c) == normal_parts(s).push(c),
{
    lemma_scan_after_slash(s, c);
}

/// A trailing `/`, and a trailing `/.`, leave the named parts as they are.
pub proof fn lemma_parts_trailing(s: Seq<char>)
    ensures
        normal_parts(s + seq!['/']) == normal_parts(s),
        normal_parts(s + seq!['/', '.']) == normal_parts(s),
{
    lemma_scan_after_slash(s, Seq::empty());
    assert(s + seq!['/'] + Seq::<char>::empty() =~= s + seq!['/']);
    lemma_scan_after_slash(s, seq!['.']);
    assert(s + seq!['/'] + seq!['.'] =~= s + seq!['/', '.']);
}

/// A path with no `/` and no dot of its own is one named part.
pub proof fn lemma_parts_single(c: Seq<char>)
    requires
        c.len() > 0,
        c != seq!['.'],
        forall|k: int| 0 <= k < c.len() ==> c[k] != '/',
    ensures
        normal_parts(c) == seq![c],
    decreases c.len(),
{
    lemma_scan_plain(c);
}

proof fn lemma_scan_plain(c: Seq<char>)
    requires
        forall|k: int| 0 <= k < c.len() ==> c[k] != '/',
    ensures
        scan(c) == (Seq::<Seq<char>>::empty(), c),
    decreases c.len(),
{
    if c.len() > 0 {
        lemma_scan_plain(c.drop_last());
        assert(c.drop_last().push(c.last()) =~= c);
    }
}

/// The named parts of `p` (see `normal_parts`).
fn parts_of(p: &str) -> (parts: Vec<String>)
    ensures
        strings_view(parts@) == normal_parts(p@),
{
    let v = chars_of(p);
    let n = v.len();
    let mut done: Vec<String> = Vec::new();
    let mut start: usize = 0;
    let mut i: usize = 0;
    while i < n
        invariant
            n == v@.len(),
            v@ == p@,
            start <= i <= n,
            scan(v@.subrange(0, i as int)) == (strings_view(done@), v@.subrange(start as int, i as int)),
        decreases n - i,
    {
        let ghost pre = v@.subrange(0, i + 1);
        proof {
            assert(pre.drop_last() =~= v@.subrange(0, i as int));
            assert(pre.last() == v@[i as int]);
        }
        if v[i] == '/' {
            let ghost cur = v@.subrange(start as int, i as int);
            let ghost d0 = strings_view(done@);
            if i > start && !(i == start + 1 && v[start] == '.') {
                proof {
                    assert(cur.len() > 0);
                    if cur =~= seq!['.'] {
                        assert(cur[0] == v@[start as int]);
                    }
                }
                done.push(owned(p.substring_char(start, i)));
                proof {
                    assert(strings_view(done@) =~= d0.push(cur));
                }
            } else {
                proof {
                    if i > start {
                        assert(cur =~= seq!['.']);
                    }
                }
            }
            start = i + 1;
            proof {
                assert(v@.subrange(start as int, i + 1) =~= Seq::<char>::empty());
            }
        } else {
            proof {
                assert(v@.subrange(start as int, i + 1) =~= v@.subrange(start as int, i as int).push(v@[i as int]));
            }
        }
        i = i + 1;
    }
    proof {
        assert(v@.subrange(0, n as int) =~= v@);
    }
    let ghost cur = v@.subrange(start as int, n as int);
    let ghost d0 = strings_view(done@);
    if n > start && !(n == start + 1 && v[start] == '.') {
        proof {
            if cur =~= seq!['.'] {
                assert(cur[0] == v@[start as int]);
            }
        }
        done.push(owned(p.substring_char(start, n)));
        proof {
            assert(strings_view(done@) =~= d0.push(cur));
        }
    } else {
        proof {
            if n > start {
                assert(cur =~= seq!['.']);
            }
        }
    }
    done
}

/// Whether `p` starts with `.` as its first component.
fn starts_with_dot(p: &str) -> (r: bool)
    ensures
        r == leading_dot(p@),
{
    let n = p.unicode_len();
    n > 0 && p.get_char(0) == '.' && (n == 1 || p.get_char(1) == '/')
}

/// Whether `a` and `b` name the same directory, compared by their
/// components as `Path` compares them.
pub fn same_path(a: &str, b: &str) -> (r: bool)
    ensures
        r == same_dir(a@, b@),
{
    let ra = crate::history::path_is_absolute(a);
    let rb = crate::history::path_is_absolute(b);
    if ra != rb {
        return false;
    }
    if starts_with_dot(a) != starts_with_dot(b) {
        return false;
    }
    let pa = parts_of(a);
    let pb = parts_of(b);
    same_strings(&pa, &pb)
}

/// The parts joined by `/`.
fn join_parts(parts: &Vec<String>) -> (r: String)
    ensures
        r@ == joined_parts(strings_view(parts@)),
{
    let mut out = String::new();
    let mut i: usize = 0;
    while i < parts.len()
        invariant
            i <= parts@.len(),
            out@ == joined_parts(strings_view(parts@).subrange(0, i as int)),
        decreases parts@.len() - i,
    {
        let ghost sub = strings_view(parts@).subrange(0, i + 1);
        proof {
            assert(sub.drop_last() =~= strings_view(parts@).subrange(0, i as int));
            assert(sub.last() == parts@[i as int]@);
        }
        if i > 0 {
            proof {
                reveal_strlit("/");
            }
            out.append("/");
        }
        out.append(parts[i].as_str());
        proof {
            if i == 0 {
                assert(sub.len() == 1);
                assert(out@ =~= sub[0]);
            } else {
                assert(out@ =~= joined_parts(sub.drop_last()) + seq!['/'] + sub.last());
            }
        }
        i = i + 1;
    }
    proof {
        assert(strings_view(parts@).subrange(0, parts@.len() as int) =~= strings_view(parts@));
    }
    out
}

/// The path `p` written from its components (see `dir_text`): the text
/// under which a directory is remembered as met.
pub fn dir_text_of(p: &str) -> (r: String)
    ensures
        r@ == dir_text(p@),
{
    let parts = parts_of(p);
    let joined = join_parts(&parts);
    if crate::history::path_is_absolute(p) {
        let mut out = String::new();
        proof {
            reveal_strlit("/");
        }
        out.append("/");
        out.append(joined.as_str());
        proof {
            assert(out@ =~= seq!['/'] + joined_parts(normal_parts(p@)));
        }
        out
    } else if starts_with_dot(p) {
        let mut out = String::new();
        if parts.len() == 0 {
            proof {
                reveal_strlit(".");
            }
            out.append(".");
            proof {
                assert(out@ =~= seq!['.']);
            }
        } else {
            proof {
                reveal_strlit("./");
            }
            out.append("./");
            out.append(joined.as_str());
            proof {
                assert(out@ =~= seq!['.', '/'] + joined_parts(normal_parts(p@)));
            }
        }
        out
    } else {
        joined
    }
}

} // verus!
