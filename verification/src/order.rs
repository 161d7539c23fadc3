//! The orders in which names, labels and paths are listed.

use vstd::prelude::*;

verus! {

/// How two values stand to each other in an order.
#[derive(Clone, Copy, Debug, PartialEq, Eq, Structural)]
pub enum Place {
    Before,
    Same,
    After,
}

/// Whether a byte string comes before another: at the first byte in which they
/// differ it has the smaller one, or it ends where the other goes on.
pub open spec fn bytes_before(a: Seq<u8>, b: Seq<u8>) -> bool
    decreases a.len(),
{
    if b.len() == 0 {
        false
    } else if a.len() == 0 {
        true
    } else if a[0] != b[0] {
        a[0] < b[0]
    } else {
        bytes_before(a.drop_first(), b.drop_first())
    }
}

/// Whether a path comes before another: at the first component in which they
/// differ it has the smaller one, or it ends where the other goes on.
pub open spec fn path_before(a: Seq<Seq<u8>>, b: Seq<Seq<u8>>) -> bool
    decreases a.len(),
{
    if b.len() == 0 {
        false
    } else if a.len() == 0 {
        true
    } else if a[0] != b[0] {
        bytes_before(a[0], b[0])
    } else {
        path_before(a.drop_first(), b.drop_first())
    }
}

/// Byte strings are in a total order: no two come each before the other, and
/// of two that differ one comes before the other.
pub proof fn lemma_bytes_before_total(a: Seq<u8>, b: Seq<u8>)
    ensures
        !(bytes_before(a, b) && bytes_before(b, a)),
        bytes_before(a, b) || bytes_before(b, a) || a == b,
        a == b ==> !bytes_before(a, b),
    decreases a.len(),
{
    if a.len() > 0 && b.len() > 0 {
        lemma_bytes_before_total(a.drop_first(), b.drop_first());
        if a[0] == b[0] && a.drop_first() == b.drop_first() {
            assert(a =~= seq![a[0]] + a.drop_first());
            assert(b =~= seq![b[0]] + b.drop_first());
        }
    } else if a.len() == 0 && b.len() == 0 {
        assert(a =~= b);
    }
}

/// What comes before a byte string comes before all that it comes before.
pub proof fn lemma_bytes_before_transitive(a: Seq<u8>, b: Seq<u8>, c: Seq<u8>)
    requires
        bytes_before(a, b),
        bytes_before(b, c),
    ensures
        bytes_before(a, c),
    decreases a.len(),
{
    if a.len() > 0 && a[0] == b[0] && b[0] == c[0] {
        lemma_bytes_before_transitive(a.drop_first(), b.drop_first(), c.drop_first());
    }
}

/// Paths are in a total order: no two come each before the other, and of two
/// that differ one comes before the other.
pub proof fn lemma_path_before_total(a: Seq<Seq<u8>>, b: Seq<Seq<u8>>)
    ensures
        !(path_before(a, b) && path_before(b, a)),
        path_before(a, b) || path_before(b, a) || a == b,
        a == b ==> !path_before(a, b),
    decreases a.len(),
{
    if a.len() > 0 && b.len() > 0 {
        lemma_bytes_before_total(a[0], b[0]);
        lemma_path_before_total(a.drop_first(), b.drop_first());
        if a[0] == b[0] && a.drop_first() == b.drop_first() {
            assert(a =~= seq![a[0]] + a.drop_first());
            assert(b =~= seq![b[0]] + b.drop_first());
        }
    } else if a.len() == 0 && b.len() == 0 {
        assert(a =~= b);
    }
}

/// What comes before a path comes before all that it comes before.
pub proof fn lemma_path_before_transitive(a: Seq<Seq<u8>>, b: Seq<Seq<u8>>, c: Seq<Seq<u8>>)
    requires
        path_before(a, b),
        path_before(b, c),
    ensures
        path_before(a, c),
    decreases a.len(),
{
    if a.len() > 0 {
        if a[0] == b[0] && b[0] == c[0] {
            lemma_path_before_transitive(a.drop_first(), b.drop_first(), c.drop_first());
        } else if a[0] != b[0] && b[0] != c[0] {
            lemma_bytes_before_transitive(a[0], b[0], c[0]);
            lemma_bytes_before_total(a[0], c[0]);
        }
    }
}

/// How two byte strings stand to each other.
pub fn place_bytes(a: &[u8], b: &[u8]) -> (res: Place)
    ensures
        match res {
            Place::Before => bytes_before(a@, b@),
            Place::Same => a@ == b@,
            Place::After => bytes_before(b@, a@),
        },
{
    let mut i: usize = 0;
    proof {
        assert(a@.skip(0) =~= a@);
        assert(b@.skip(0) =~= b@);
    }
    while i < a.len() && i < b.len()
        invariant
            i <= a@.len(),
            i <= b@.len(),
            forall|k: int| 0 <= k < i ==> a@[k] == b@[k],
            bytes_before(a@, b@) == bytes_before(a@.skip(i as int), b@.skip(i as int)),
            bytes_before(b@, a@) == bytes_before(b@.skip(i as int), a@.skip(i as int)),
        decreases a@.len() - i,
    {
        if a[i] < b[i] {
            return Place::Before;
        }
        if b[i] < a[i] {
            return Place::After;
        }
        proof {
            assert(a@.skip(i as int).drop_first() =~= a@.skip(i + 1));
            assert(b@.skip(i as int).drop_first() =~= b@.skip(i + 1));
        }
        i += 1;
    }
    if i < b.len() {
        Place::Before
    } else if i < a.len() {
        Place::After
    } else {
        proof {
            assert(a@ =~= b@);
        }
        Place::Same
    }
}

/// A part of a path, with the bytes of its name if it has one.
#[derive(Debug, PartialEq, Eq)]
pub enum PathPart {
    /// What stands before the root, such as a drive.
    Prefix(Vec<u8>),
    /// The root directory.
    RootDir,
    /// The directory itself.
    CurDir,
    /// The directory that holds the directory.
    ParentDir,
    /// An entry of a directory.
    Normal(Vec<u8>),
}

/// The bytes that order the parts of a path: by what they are, and then by
/// their names.
pub open spec fn part_key(part: PathPart) -> Seq<u8> {
    match part {
        PathPart::Prefix(name) => seq![0u8] + name@,
        PathPart::RootDir => seq![1u8],
        PathPart::CurDir => seq![2u8],
        PathPart::ParentDir => seq![3u8],
        PathPart::Normal(name) => seq![4u8] + name@,
    }
}

/// The components of a path, as the bytes that order them.
pub open spec fn components(path: Seq<PathPart>) -> Seq<Seq<u8>> {
    path.map_values(|part: PathPart| part_key(part))
}

/// The rank of a part among parts of other kinds, and its name.
fn part_rank<'a>(part: &'a PathPart, none: &'a Vec<u8>) -> (res: (u8, &'a Vec<u8>))
    requires
        none@.len() == 0,
    ensures
        part_key(*part) == seq![res.0] + res.1@,
{
    let found: (u8, &'a Vec<u8>) = match part {
        PathPart::Prefix(name) => (0, name),
        PathPart::RootDir => (1, none),
        PathPart::CurDir => (2, none),
        PathPart::ParentDir => (3, none),
        PathPart::Normal(name) => (4, name),
    };
    proof {
        assert(part_key(*part) =~= seq![found.0] + found.1@);
    }
    found
}

/// How two parts of paths stand to each other.
pub fn place_parts(a: &PathPart, b: &PathPart) -> (res: Place)
    ensures
        match res {
            Place::Before => bytes_before(part_key(*a), part_key(*b)),
            Place::Same => part_key(*a) == part_key(*b),
            Place::After => bytes_before(part_key(*b), part_key(*a)),
        },
{
    let none: Vec<u8> = Vec::new();
    let (rank_a, name_a) = part_rank(a, &none);
    let (rank_b, name_b) = part_rank(b, &none);
    proof {
        assert(part_key(*a).drop_first() =~= name_a@);
        assert(part_key(*b).drop_first() =~= name_b@);
    }
    if rank_a < rank_b {
        Place::Before
    } else if rank_b < rank_a {
        Place::After
    } else {
        place_bytes(name_a.as_slice(), name_b.as_slice())
    }
}

/// How two paths stand to each other.
pub fn place_paths(a: &Vec<PathPart>, b: &Vec<PathPart>) -> (res: Place)
    ensures
        match res {
            Place::Before => path_before(components(a@), components(b@)),
            Place::Same => components(a@) == components(b@),
            Place::After => path_before(components(b@), components(a@)),
        },
{
    let ghost x = components(a@);
    let ghost y = components(b@);
    let mut i: usize = 0;
    proof {
        assert(x.skip(0) =~= x);
        assert(y.skip(0) =~= y);
    }
    while i < a.len() && i < b.len()
        invariant
            x == components(a@),
            y == components(b@),
            i <= x.len(),
            i <= y.len(),
            forall|k: int| 0 <= k < i ==> x[k] == y[k],
            path_before(x, y) == path_before(x.skip(i as int), y.skip(i as int)),
            path_before(y, x) == path_before(y.skip(i as int), x.skip(i as int)),
        decreases x.len() - i,
    {
        proof {
            lemma_bytes_before_total(x[i as int], y[i as int]);
        }
        match place_parts(&a[i], &b[i]) {
            Place::Before => {
                return Place::Before;
            },
            Place::After => {
                return Place::After;
            },
            Place::Same => {},
        }
        proof {
            assert(x.skip(i as int).drop_first() =~= x.skip(i + 1));
            assert(y.skip(i as int).drop_first() =~= y.skip(i + 1));
        }
        i += 1;
    }
    if i < b.len() {
        Place::Before
    } else if i < a.len() {
        Place::After
    } else {
        proof {
            assert(x =~= y);
        }
        Place::Same
    }
}

} // verus!
