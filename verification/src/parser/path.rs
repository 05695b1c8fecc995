use vstd::prelude::*;
use vstd::string::*;
use crate::tokenizer::state::push_char;

verus! {

/// The parts of `s` between the `/` characters, as `str::split('/')` gives them: one more
/// part than there are separators.
pub open spec fn split_path(s: Seq<char>) -> Seq<Seq<char>>
    decreases s.len(),
{
    if s.len() == 0 {
        seq![Seq::<char>::empty()]
    } else {
        let parts = split_path(s.drop_last());
        if s.last() == '/' {
            parts.push(Seq::<char>::empty())
        } else {
            parts.update(parts.len() - 1, parts.last().push(s.last()))
        }
    }
}

/// The directory name that steps up: `..`.
pub open spec fn parent_dir() -> Seq<char> {
    seq!['.', '.']
}

/// The parts after resolving `..`: each `..` removes the part before it, unless there is none
/// or that part is itself a `..` that could not be resolved.
pub open spec fn resolve_parts(parts: Seq<Seq<char>>) -> Seq<Seq<char>>
    decreases parts.len(),
{
    if parts.len() == 0 {
        Seq::empty()
    } else {
        let done = resolve_parts(parts.drop_last());
        let part = parts.last();
        if part == parent_dir() && done.len() > 0 && done.last() != parent_dir() {
            done.drop_last()
        } else {
            done.push(part)
        }
    }
}

/// The parts joined with `/` between them.
pub open spec fn join_path(parts: Seq<Seq<char>>) -> Seq<char>
    decreases parts.len(),
{
    if parts.len() == 0 {
        Seq::empty()
    } else if parts.len() == 1 {
        parts[0]
    } else {
        join_path(parts.drop_last()) + seq!['/'] + parts.last()
    }
}

/// The parts that a list of index ranges picks out of `s`.
pub open spec fn range_parts(s: Seq<char>, ranges: Seq<(usize, usize)>) -> Seq<Seq<char>> {
    ranges.map_values(|r: (usize, usize)| s.subrange(r.0 as int, r.1 as int))
}

/// The normal form of a path: its parts with `..` resolved, joined again.
pub open spec fn normalized(path: Seq<char>) -> Seq<char> {
    join_path(resolve_parts(split_path(path)))
}

/// No part holds a `/`.
pub open spec fn no_slash(parts: Seq<Seq<char>>) -> bool {
    forall|i: int| 0 <= i < parts.len() ==> !(#[trigger] parts[i]).contains('/')
}

/// Every `..` stands only after other `..` parts.
pub open spec fn resolved_shape(parts: Seq<Seq<char>>) -> bool {
    forall|i: int, j: int|
        0 <= i < j < parts.len() && #[trigger] parts[j] == parent_dir() ==> #[trigger] parts[i]
            == parent_dir()
}

proof fn lemma_split_no_slash(s: Seq<char>)
    ensures
        split_path(s).len() >= 1,
        no_slash(split_path(s)),
    decreases s.len(),
{
    if s.len() > 0 {
        lemma_split_no_slash(s.drop_last());
        let parts = split_path(s.drop_last());
        if s.last() != '/' {
            assert forall|i: int| 0 <= i < split_path(s).len() implies !(
            #[trigger] split_path(s)[i]).contains('/') by {
                if i == parts.len() - 1 {
                    let x = parts.last();
                    assert(!x.contains('/'));
                    if x.push(s.last()).contains('/') {
                        let k = choose|k: int| 0 <= k < x.push(s.last()).len() && x.push(s.last())[k] == '/';
                        assert(x[k] == '/');
                    }
                }
            }
        } else {
            assert forall|i: int| 0 <= i < split_path(s).len() implies !(
            #[trigger] split_path(s)[i]).contains('/') by {
                if i == parts.len() {
                    assert(split_path(s)[i] =~= Seq::<char>::empty());
                }
            }
        }
    }
}

/// A text without `/` is one part.
proof fn lemma_split_single(y: Seq<char>)
    requires
        !y.contains('/'),
    ensures
        split_path(y) == seq![y],
    decreases y.len(),
{
    if y.len() > 0 {
        assert(!y.drop_last().contains('/')) by {
            if y.drop_last().contains('/') {
                let k = choose|k: int| 0 <= k < y.drop_last().len() && y.drop_last()[k] == '/';
                assert(y[k] == '/');
            }
        }
        lemma_split_single(y.drop_last());
        assert(y.last() != '/') by {
            assert(y[y.len() - 1] == y.last());
        }
        assert(y.drop_last().push(y.last()) =~= y);
        assert(split_path(y) =~= seq![y]);
    } else {
        assert(y =~= Seq::<char>::empty());
    }
}

/// A `/` and then a text without `/` add one part.
proof fn lemma_split_append(x: Seq<char>, y: Seq<char>)
    requires
        !y.contains('/'),
    ensures
        split_path(x + seq!['/'] + y) == split_path(x).push(y),
    decreases y.len(),
{
    if y.len() == 0 {
        let z = x + seq!['/'] + y;
        assert(z.drop_last() =~= x);
        assert(z.last() == '/');
        assert(y =~= Seq::<char>::empty());
    } else {
        let y2 = y.drop_last();
        assert(!y2.contains('/')) by {
            if y2.contains('/') {
                let k = choose|k: int| 0 <= k < y2.len() && y2[k] == '/';
                assert(y[k] == '/');
            }
        }
        lemma_split_append(x, y2);
        let z = x + seq!['/'] + y;
        assert(z.drop_last() =~= x + seq!['/'] + y2);
        assert(z.last() == y.last());
        assert(y.last() != '/') by {
            assert(y[y.len() - 1] == y.last());
        }
        assert(y2.push(y.last()) =~= y);
        assert(split_path(z) =~= split_path(x).push(y));
    }
}

/// Splitting parts without `/` joined with `/` gives them back.
proof fn lemma_split_join(parts: Seq<Seq<char>>)
    requires
        parts.len() >= 1,
        no_slash(parts),
    ensures
        split_path(join_path(parts)) == parts,
    decreases parts.len(),
{
    if parts.len() == 1 {
        assert(!parts[0].contains('/'));
        lemma_split_single(parts[0]);
        assert(parts =~= seq![parts[0]]);
    } else {
        let rest = parts.drop_last();
        assert(no_slash(rest)) by {
            assert forall|i: int| 0 <= i < rest.len() implies !(#[trigger] rest[i]).contains('/') by {
                assert(rest[i] == parts[i]);
            }
        }
        lemma_split_join(rest);
        assert(!parts.last().contains('/')) by {
            assert(parts[parts.len() - 1] == parts.last());
        }
        lemma_split_append(join_path(rest), parts.last());
        assert(rest.push(parts.last()) =~= parts);
    }
}

/// Resolving gives parts of the resolved shape, without `/` when the parts had none.
proof fn lemma_resolve_shape(parts: Seq<Seq<char>>)
    ensures
        resolved_shape(resolve_parts(parts)),
        no_slash(parts) ==> no_slash(resolve_parts(parts)),
    decreases parts.len(),
{
    if parts.len() > 0 {
        let rest = parts.drop_last();
        lemma_resolve_shape(rest);
        let done = resolve_parts(rest);
        let part = parts.last();
        if no_slash(parts) {
            assert(no_slash(rest)) by {
                assert forall|i: int| 0 <= i < rest.len() implies !(#[trigger] rest[i]).contains('/') by {
                    assert(rest[i] == parts[i]);
                }
            }
            assert(!part.contains('/')) by {
                assert(parts[parts.len() - 1] == part);
            }
        }
        if part == parent_dir() && done.len() > 0 && done.last() != parent_dir() {
            let r = done.drop_last();
            assert forall|i: int, j: int|
                0 <= i < j < r.len() && #[trigger] r[j] == parent_dir() implies #[trigger] r[i]
                == parent_dir() by {
                assert(r[j] == done[j] && r[i] == done[i]);
            }
            if no_slash(parts) {
                assert forall|i: int| 0 <= i < r.len() implies !(#[trigger] r[i]).contains('/') by {
                    assert(r[i] == done[i]);
                }
            }
        } else {
            let r = done.push(part);
            assert forall|i: int, j: int|
                0 <= i < j < r.len() && #[trigger] r[j] == parent_dir() implies #[trigger] r[i]
                == parent_dir() by {
                assert(r[i] == done[i]);
                if j < done.len() {
                    assert(r[j] == done[j]);
                } else {
                    assert(part == parent_dir());
                    assert(done.last() == parent_dir()) by {
                        assert(done.len() > 0);
                    }
                    assert(done[done.len() - 1] == parent_dir());
                    if i < done.len() - 1 {
                        assert(done[i] == parent_dir());
                    }
                }
            }
            if no_slash(parts) {
                assert forall|i: int| 0 <= i < r.len() implies !(#[trigger] r[i]).contains('/') by {
                    if i < done.len() {
                        assert(r[i] == done[i]);
                    }
                }
            }
        }
    }
}

/// Parts of the resolved shape resolve to themselves.
proof fn lemma_resolve_identity(parts: Seq<Seq<char>>)
    requires
        resolved_shape(parts),
    ensures
        resolve_parts(parts) == parts,
    decreases parts.len(),
{
    if parts.len() > 0 {
        let rest = parts.drop_last();
        assert(resolved_shape(rest)) by {
            assert forall|i: int, j: int|
                0 <= i < j < rest.len() && #[trigger] rest[j] == parent_dir() implies #[trigger] rest[i]
                == parent_dir() by {
                assert(rest[i] == parts[i] && rest[j] == parts[j]);
            }
        }
        lemma_resolve_identity(rest);
        let part = parts.last();
        if part == parent_dir() && rest.len() > 0 {
            assert(parts[parts.len() - 1] == parent_dir());
            assert(parts[rest.len() - 1] == parent_dir());
            assert(rest.last() == parent_dir());
        }
        assert(rest.push(part) =~= parts);
    }
}

/// The parts of a normal form are some `..` followed by parts none of which is `..`: each `..`
/// of the path has cancelled the nearest part before it that was not a `..` (see
/// `resolve_parts`). When every part cancels (as in `a/..`), the normal form is the empty text,
/// whose one part is empty.
pub proof fn law_normalize_shape(path: Seq<char>)
    ensures
        resolved_shape(split_path(normalized(path))),
        resolve_parts(split_path(path)).len() == 0 ==> normalized(path).len() == 0,
{
    let parts = split_path(path);
    lemma_split_no_slash(path);
    lemma_resolve_shape(parts);
    let resolved = resolve_parts(parts);
    if resolved.len() >= 1 {
        lemma_split_join(resolved);
    } else {
        let empty = Seq::<char>::empty();
        assert(join_path(resolved) =~= empty);
        assert(split_path(empty) == seq![empty]);
        assert(empty.len() != parent_dir().len());
        assert(empty != parent_dir());
    }
}

/// Normalizing a normalized path changes nothing.
pub proof fn law_normalize_idempotent(path: Seq<char>)
    ensures
        normalized(normalized(path)) == normalized(path),
{
    let parts = split_path(path);
    lemma_split_no_slash(path);
    lemma_resolve_shape(parts);
    let resolved = resolve_parts(parts);
    if resolved.len() >= 1 {
        lemma_split_join(resolved);
        lemma_resolve_identity(resolved);
    } else {
        let empty = Seq::<char>::empty();
        assert(join_path(resolved) =~= empty);
        assert(split_path(empty) == seq![empty]);
        let single = seq![empty];
        assert(single.drop_last() =~= Seq::<Seq<char>>::empty());
        assert(empty.len() != parent_dir().len());
        assert(single.last() == empty);
        assert(resolve_parts(single.drop_last()) =~= Seq::<Seq<char>>::empty());
        assert(resolve_parts(single) == resolve_parts(single.drop_last()).push(empty));
        assert(resolve_parts(single) =~= single);
    }
}

/// The characters of a string.
pub(crate) fn chars_of(s: &str) -> (r: Vec<char>)
    ensures
        r@ == s@,
{
    broadcast use vstd::string::next_postcondition, vstd::string::axiom_spec_iter;
    let mut result: Vec<char> = Vec::new();
    let mut it = s.chars();
    loop
        invariant
            result@ + vstd::std_specs::iter::IteratorSpec::remaining(&it) == s@,
            vstd::std_specs::iter::IteratorSpec::obeys_prophetic_iter_laws(&it),
        decreases s@.len() - result@.len(),
    {
        match it.next() {
            Some(c) => {
                proof {
                    assert(result@.push(c) + vstd::std_specs::iter::IteratorSpec::remaining(&it) =~= s@);
                }
                result.push(c);
            },
            None => {
                proof {
                    assert(result@ =~= s@);
                }
                return result;
            },
        }
    }
}

/// The path with each `..` resolved against the directory before it, where there is one
/// that is not itself `..`.
pub fn normalize(path: &str) -> (r: String)
    ensures
        r@ == normalized(path@),
{
    let chars = chars_of(path);
    let n = chars.len();
    // Split into the index ranges of the parts.
    let mut ranges: Vec<(usize, usize)> = Vec::new();
    let mut start: usize = 0;
    let mut i: usize = 0;
    proof {
        assert(chars@.take(0) =~= Seq::<char>::empty());
        assert(range_parts(chars@, ranges@) =~= Seq::<Seq<char>>::empty());
        assert(chars@.subrange(0, 0) =~= Seq::<char>::empty());
        assert(range_parts(chars@, ranges@).push(chars@.subrange(0, 0)) =~= seq![
            Seq::<char>::empty(),
        ]);
    }
    while i < n
        invariant
            n == chars@.len(),
            chars@ == path@,
            start <= i <= n,
            forall|k: int| 0 <= k < ranges@.len() ==> #[trigger] ranges@[k].0 <= ranges@[k].1 <= start,
            range_parts(chars@, ranges@).push(chars@.subrange(start as int, i as int))
                == split_path(chars@.take(i as int)),
        decreases n - i,
    {
        let ghost old_ranges = ranges@;
        proof {
            assert(chars@.take(i + 1).drop_last() =~= chars@.take(i as int));
        }
        if chars[i] == '/' {
            let ghost old_start = start;
            ranges.push((start, i));
            start = i + 1;
            proof {
                assert forall|k: int| 0 <= k < ranges@.len() implies #[trigger] ranges@[k].0
                    <= ranges@[k].1 <= start by {
                    if k < old_ranges.len() {
                        assert(ranges@[k] == old_ranges[k]);
                        assert(old_ranges[k].0 <= old_ranges[k].1 <= old_start);
                    } else {
                        assert(ranges@[k] == (old_start, i));
                    }
                }
                assert(range_parts(chars@, ranges@) =~= range_parts(chars@, old_ranges).push(
                    chars@.subrange(ranges@.last().0 as int, i as int),
                ));
                assert(chars@.subrange(start as int, (i + 1) as int) =~= Seq::<char>::empty());
            }
        } else {
            proof {
                assert(chars@.subrange(start as int, (i + 1) as int) =~= chars@.subrange(
                    start as int,
                    i as int,
                ).push(chars@[i as int]));
            }
        }
        i = i + 1;
    }
    let ghost before_last = ranges@;
    ranges.push((start, n));
    proof {
        assert(chars@.take(n as int) =~= chars@);
        assert(range_parts(chars@, ranges@) =~= range_parts(chars@, before_last).push(
            chars@.subrange(start as int, n as int),
        ));
    }
    // Resolve `..`.
    let mut result: Vec<(usize, usize)> = Vec::new();
    let m = ranges.len();
    let mut j: usize = 0;
    while j < m
        invariant
            m == ranges@.len(),
            n == chars@.len(),
            chars@ == path@,
            j <= m,
            forall|k: int| 0 <= k < ranges@.len() ==> #[trigger] ranges@[k].0 <= ranges@[k].1 <= n,
            forall|k: int| 0 <= k < result@.len() ==> #[trigger] result@[k].0 <= result@[k].1 <= n,
            range_parts(chars@, ranges@) == split_path(path@),
            range_parts(chars@, result@) == resolve_parts(
                range_parts(chars@, ranges@).take(j as int),
            ),
        decreases m - j,
    {
        let (a, b) = ranges[j];
        let ghost parts = range_parts(chars@, ranges@);
        let ghost done = range_parts(chars@, result@);
        proof {
            assert(parts.take(j + 1).drop_last() =~= parts.take(j as int));
            assert(parts.take(j + 1).last() == chars@.subrange(a as int, b as int));
        }
        let is_parent = b - a == 2 && chars[a] == '.' && chars[a + 1] == '.';
        proof {
            let part = chars@.subrange(a as int, b as int);
            if is_parent {
                assert(part =~= parent_dir());
            } else if part.len() == 2 {
                assert(part[0] == chars@[a as int]);
                assert(part[1] == chars@[a + 1]);
                assert(part != parent_dir());
            } else {
                assert(part.len() != parent_dir().len());
            }
        }
        let mut resolved = false;
        if is_parent && result.len() > 0 {
            let (c, d) = result[result.len() - 1];
            let last_is_parent = d - c == 2 && chars[c] == '.' && chars[c + 1] == '.';
            proof {
                let last = chars@.subrange(c as int, d as int);
                assert(done.last() == last);
                if last_is_parent {
                    assert(last =~= parent_dir());
                } else if last.len() == 2 {
                    assert(last[0] == chars@[c as int]);
                    assert(last[1] == chars@[c + 1]);
                    assert(last != parent_dir());
                } else {
                    assert(last.len() != parent_dir().len());
                }
            }
            if !last_is_parent {
                result.pop();
                resolved = true;
                proof {
                    assert(range_parts(chars@, result@) =~= done.drop_last());
                }
            }
        }
        if !resolved {
            result.push((a, b));
            proof {
                assert(range_parts(chars@, result@) =~= done.push(chars@.subrange(a as int, b as int)));
            }
        }
        j = j + 1;
    }
    proof {
        assert(range_parts(chars@, ranges@).take(m as int) =~= range_parts(chars@, ranges@));
    }
    // Join with `/`.
    let mut out = String::new();
    let k_max = result.len();
    let mut k: usize = 0;
    while k < k_max
        invariant
            k_max == result@.len(),
            n == chars@.len(),
            chars@ == path@,
            k <= k_max,
            forall|q: int| 0 <= q < result@.len() ==> #[trigger] result@[q].0 <= result@[q].1 <= n,
            out@ == join_path(range_parts(chars@, result@).take(k as int)),
        decreases k_max - k,
    {
        let (a, b) = result[k];
        let ghost parts = range_parts(chars@, result@);
        proof {
            assert(parts.take(k + 1).drop_last() =~= parts.take(k as int));
        }
        if k > 0 {
            let sep = "/";
            proof {
                reveal_strlit("/");
            }
            out.append(sep);
        }
        let part = path.substring_char(a, b);
        out.append(part);
        proof {
            assert(parts.take(k + 1).last() == chars@.subrange(a as int, b as int));
            if k == 0 {
                assert(parts.take(1).len() == 1);
            }
        }
        k = k + 1;
    }
    proof {
        assert(range_parts(chars@, result@).take(k_max as int) =~= range_parts(chars@, result@));
    }
    out
}

/// The path of the file `b` in the directory `a`: the two joined with a `/`.
pub fn concat(a: &str, b: &str) -> (r: String)
    ensures
        r@ == a@ + seq!['/'] + b@,
{
    let mut r = String::from_str(a);
    push_char(&mut r, '/');
    r.append(b);
    r
}

} // verus!
