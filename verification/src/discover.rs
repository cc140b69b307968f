//! Turning the files met in the benchmark directories into loaders.
//!
//! A benchmark is a directory that holds a file `benchmark`, and may hold a
//! file `setup` beside it. The driver walks the directories and reports
//! each file it meets; [`find_benchmarks`] groups them by directory and
//! orders the benchmarks by name.

use vstd::prelude::*;
use vstd::string::*;
use vstd::utf8::*;

use crate::bench::BenchmarkLoader;

verus! {

/// `a` comes before `b` when byte strings are compared position by
/// position: at the first position where they differ `a` holds the smaller
/// byte, or `a` ends there and `b` does not.
pub open spec fn bytes_lt(a: Seq<u8>, b: Seq<u8>) -> bool
    decreases a.len(),
{
    if b.len() == 0 {
        false
    } else if a.len() == 0 {
        true
    } else if a[0] != b[0] {
        a[0] < b[0]
    } else {
        bytes_lt(a.drop_first(), b.drop_first())
    }
}

/// The order of benchmark names: that of their UTF-8 encodings, which is
/// how strings compare.
pub open spec fn name_lt(a: Seq<char>, b: Seq<char>) -> bool {
    bytes_lt(encode_utf8(a), encode_utf8(b))
}

/// Of two byte strings exactly one comes first, unless they are equal.
pub proof fn lemma_bytes_lt_trichotomy(a: Seq<u8>, b: Seq<u8>)
    ensures
        bytes_lt(a, b) || bytes_lt(b, a) || a == b,
        !(bytes_lt(a, b) && bytes_lt(b, a)),
        a == b ==> !bytes_lt(a, b),
    decreases a.len(),
{
    if a.len() == 0 || b.len() == 0 {
        if a.len() == 0 && b.len() == 0 {
            assert(a =~= b);
        }
    } else if a[0] == b[0] {
        lemma_bytes_lt_trichotomy(a.drop_first(), b.drop_first());
        if a.drop_first() == b.drop_first() {
            assert(a =~= seq![a[0]] + a.drop_first());
            assert(b =~= seq![b[0]] + b.drop_first());
        }
    }
}

/// The order of byte strings is transitive.
pub proof fn lemma_bytes_lt_transitive(a: Seq<u8>, b: Seq<u8>, c: Seq<u8>)
    requires
        bytes_lt(a, b),
        bytes_lt(b, c),
    ensures
        bytes_lt(a, c),
    decreases a.len(),
{
    if a.len() > 0 && a[0] == b[0] && b[0] == c[0] {
        lemma_bytes_lt_transitive(a.drop_first(), b.drop_first(), c.drop_first());
    }
}

/// Benchmark names are strictly and totally ordered.
pub proof fn lemma_name_lt_order(a: Seq<char>, b: Seq<char>, c: Seq<char>)
    ensures
        name_lt(a, b) || name_lt(b, a) || a == b,
        !(name_lt(a, b) && name_lt(b, a)),
        !name_lt(a, a),
        name_lt(a, b) && name_lt(b, c) ==> name_lt(a, c),
{
    lemma_bytes_lt_trichotomy(encode_utf8(a), encode_utf8(b));
    lemma_bytes_lt_trichotomy(encode_utf8(a), encode_utf8(a));
    if encode_utf8(a) == encode_utf8(b) {
        encode_utf8_decode_utf8(a);
        encode_utf8_decode_utf8(b);
    }
    if name_lt(a, b) && name_lt(b, c) {
        lemma_bytes_lt_transitive(encode_utf8(a), encode_utf8(b), encode_utf8(c));
    }
}

/// Whether the name `a` sorts before the name `b`.
pub fn name_before(a: &str, b: &str) -> (before: bool)
    ensures
        before == name_lt(a@, b@),
{
    let left = a.as_bytes();
    let right = b.as_bytes();
    let mut i: usize = 0;
    assert(left@.skip(0) == left@);
    assert(right@.skip(0) == right@);
    loop
        invariant
            i <= left@.len(),
            i <= right@.len(),
            left@ == encode_utf8(a@),
            right@ == encode_utf8(b@),
            bytes_lt(left@, right@) == bytes_lt(left@.skip(i as int), right@.skip(i as int)),
        decreases left@.len() - i,
    {
        if i == right.len() {
            return false;
        }
        if i == left.len() {
            return true;
        }
        if left[i] != right[i] {
            return left[i] < right[i];
        }
        assert(left@.skip(i as int).drop_first() == left@.skip(i + 1));
        assert(right@.skip(i as int).drop_first() == right@.skip(i + 1));
        i += 1;
    }
}

/// What a file is to a benchmark.
#[derive(Clone, Copy, Debug, PartialEq, Eq, Structural)]
pub enum Role {
    /// It produces the bytes written before each pass.
    Setup,
    /// It produces the measured bytes.
    Benchmark,
}

/// A file met while walking the benchmark directories.
pub struct FoundFile {
    /// Name of the file itself.
    pub file_name: String,
    /// Name of the directory the file stands in, where it has one.
    pub directory: Option<String>,
    /// Where the file is.
    pub path: std::path::PathBuf,
}

/// The role that a file has by its name, if any.
pub open spec fn role_of(file_name: Seq<char>) -> Option<Role> {
    if file_name == "setup"@ {
        Some(Role::Setup)
    } else if file_name == "benchmark"@ {
        Some(Role::Benchmark)
    } else {
        None
    }
}

/// `file` is the producer in `role` of the benchmark `name`.
pub open spec fn plays(file: FoundFile, name: Seq<char>, role: Role) -> bool {
    &&& file.directory matches Some(directory)
    &&& directory@ == name
    &&& role_of(file.file_name@) == Some(role)
}

/// The producer in `role` of the benchmark `name` among `files`: where
/// several files claim the place, the one met last holds it.
pub open spec fn producer_of(files: Seq<FoundFile>, name: Seq<char>, role: Role) -> Option<
    std::path::PathBuf,
>
    decreases files.len(),
{
    if files.len() == 0 {
        None
    } else {
        let later = producer_of(files.drop_first(), name, role);
        if later is Some {
            later
        } else if plays(files.first(), name, role) {
            Some(files.first().path)
        } else {
            None
        }
    }
}

/// `loaders` is the catalogue of the benchmarks among `files`: it is in
/// strictly ascending order of name, every loader holds the producers that
/// `files` give its benchmark, and every name with a benchmark producer has
/// its loader.
pub open spec fn catalogue(files: Seq<FoundFile>, loaders: Seq<BenchmarkLoader>) -> bool {
    &&& forall|i: int, j: int|
        0 <= i < j < loaders.len() ==> name_lt(
            (#[trigger] loaders[i])@.name,
            (#[trigger] loaders[j])@.name,
        )
    &&& forall|i: int|
        0 <= i < loaders.len() ==> {
            &&& producer_of(files, (#[trigger] loaders[i])@.name, Role::Benchmark) == Some(
                loaders[i]@.bench_path,
            )
            &&& producer_of(files, loaders[i]@.name, Role::Setup) == loaders[i]@.setup_path
        }
    &&& forall|name: Seq<char>| #[trigger]
        producer_of(files, name, Role::Benchmark) is Some ==> exists|i: int|
            0 <= i < loaders.len() && (#[trigger] loaders[i])@.name == name
}

/// The producers gathered so far for one directory.
struct Group {
    name: String,
    setup_path: Option<std::path::PathBuf>,
    bench_path: Option<std::path::PathBuf>,
}

/// One of `groups` is for the directory `name`.
spec fn named(groups: Seq<Group>, name: Seq<char>) -> bool {
    exists|i: int| 0 <= i < groups.len() && (#[trigger] groups[i]).name@ == name
}

/// `groups` is in strictly ascending order of name.
spec fn in_order(groups: Seq<Group>) -> bool {
    forall|i: int, j: int|
        0 <= i < j < groups.len() ==> name_lt(
            (#[trigger] groups[i]).name@,
            (#[trigger] groups[j]).name@,
        )
}

/// `groups` holds what `files` say: one group for each directory with a
/// producer, in order of name, each with the producers of its directory.
spec fn reflects(groups: Seq<Group>, files: Seq<FoundFile>) -> bool {
    &&& in_order(groups)
    &&& forall|i: int|
        0 <= i < groups.len() ==> {
            &&& (#[trigger] groups[i]).setup_path == producer_of(
                files,
                groups[i].name@,
                Role::Setup,
            )
            &&& groups[i].bench_path == producer_of(files, groups[i].name@, Role::Benchmark)
        }
    &&& forall|name: Seq<char>, role: Role| #[trigger]
        producer_of(files, name, role) is Some ==> named(groups, name)
}

/// A file that is no producer leaves the groups as they are.
proof fn lemma_unclaimed(groups: Seq<Group>, rest: Seq<FoundFile>, now: Seq<FoundFile>)
    requires
        reflects(groups, rest),
        now.len() > 0,
        now.drop_first() == rest,
        role_of(now.first().file_name@) is None || now.first().directory is None,
    ensures
        reflects(groups, now),
{
    assert forall|name: Seq<char>, role: Role| #[trigger]
        producer_of(now, name, role) == producer_of(rest, name, role) by {}
}

/// The first producer met for a directory opens its group, at the place
/// that the order of names gives it.
proof fn lemma_claim_new(
    groups: Seq<Group>,
    rest: Seq<FoundFile>,
    now: Seq<FoundFile>,
    p: int,
    fresh: Group,
    role: Role,
)
    requires
        reflects(groups, rest),
        now.len() > 0,
        now.drop_first() == rest,
        plays(now.first(), fresh.name@, role),
        0 <= p <= groups.len(),
        forall|i: int| 0 <= i < p ==> name_lt((#[trigger] groups[i]).name@, fresh.name@),
        p < groups.len() ==> !name_lt(groups[p].name@, fresh.name@) && groups[p].name@
            != fresh.name@,
        fresh.setup_path == (if role == Role::Setup {
            Some(now.first().path)
        } else {
            None
        }),
        fresh.bench_path == (if role == Role::Benchmark {
            Some(now.first().path)
        } else {
            None
        }),
    ensures
        reflects(groups.insert(p, fresh), now),
{
    let after = groups.insert(p, fresh);
    let name = fresh.name@;
    assert forall|i: int| p <= i < groups.len() implies name_lt(
        name,
        (#[trigger] groups[i]).name@,
    ) by {
        lemma_name_lt_order(name, groups[p].name@, groups[i].name@);
    }
    assert forall|i: int| 0 <= i < groups.len() implies (#[trigger] groups[i]).name@ != name by {
        lemma_name_lt_order(name, groups[i].name@, name);
    }
    assert(!named(groups, name));
    assert(producer_of(rest, name, Role::Setup) is None);
    assert(producer_of(rest, name, Role::Benchmark) is None);
    assert forall|i: int, j: int| 0 <= i < j < after.len() implies name_lt(
        (#[trigger] after[i]).name@,
        (#[trigger] after[j]).name@,
    ) by {
        if i < p && j > p {
            assert(after[i] == groups[i]);
            assert(after[j] == groups[j - 1]);
            lemma_name_lt_order(groups[i].name@, name, groups[j - 1].name@);
        } else if i < p && j < p {
            assert(after[i] == groups[i]);
            assert(after[j] == groups[j]);
        } else if i < p {
            assert(after[i] == groups[i]);
        } else if i == p {
            assert(after[j] == groups[j - 1]);
        } else {
            assert(after[i] == groups[i - 1]);
            assert(after[j] == groups[j - 1]);
        }
    }
    assert forall|i: int| 0 <= i < after.len() implies {
        &&& (#[trigger] after[i]).setup_path == producer_of(now, after[i].name@, Role::Setup)
        &&& after[i].bench_path == producer_of(now, after[i].name@, Role::Benchmark)
    } by {
        if i < p {
            assert(after[i] == groups[i]);
        } else if i > p {
            assert(after[i] == groups[i - 1]);
        }
    }
    assert forall|other: Seq<char>, any: Role| #[trigger]
        producer_of(now, other, any) is Some implies named(after, other) by {
        if other == name {
            assert(after[p].name@ == name);
        } else {
            assert(producer_of(rest, other, any) is Some);
            assert(named(groups, other));
            let i = choose|i: int| 0 <= i < groups.len() && (#[trigger] groups[i]).name@ == other;
            if i < p {
                assert(after[i] == groups[i]);
            } else {
                assert(after[i + 1] == groups[i]);
            }
        }
    }
}

/// A further producer met for a directory fills its place in the group
/// unless a file met later already holds it.
proof fn lemma_claim_known(
    groups: Seq<Group>,
    rest: Seq<FoundFile>,
    now: Seq<FoundFile>,
    p: int,
    updated: Group,
    role: Role,
)
    requires
        reflects(groups, rest),
        now.len() > 0,
        now.drop_first() == rest,
        0 <= p < groups.len(),
        plays(now.first(), groups[p].name@, role),
        updated.name@ == groups[p].name@,
        updated.setup_path == (if role == Role::Setup && groups[p].setup_path is None {
            Some(now.first().path)
        } else {
            groups[p].setup_path
        }),
        updated.bench_path == (if role == Role::Benchmark && groups[p].bench_path is None {
            Some(now.first().path)
        } else {
            groups[p].bench_path
        }),
    ensures
        reflects(groups.remove(p).insert(p, updated), now),
{
    let after = groups.remove(p).insert(p, updated);
    let name = updated.name@;
    assert(after =~= groups.update(p, updated));
    assert forall|i: int| 0 <= i < groups.len() && i != p implies (#[trigger] groups[i]).name@
        != name by {
        lemma_name_lt_order(name, groups[i].name@, name);
        if i < p {
            assert(name_lt(groups[i].name@, groups[p].name@));
        } else {
            assert(name_lt(groups[p].name@, groups[i].name@));
        }
    }
    assert forall|i: int, j: int| 0 <= i < j < after.len() implies name_lt(
        (#[trigger] after[i]).name@,
        (#[trigger] after[j]).name@,
    ) by {
        assert(after[i].name@ == groups[i].name@);
        assert(after[j].name@ == groups[j].name@);
    }
    assert forall|i: int| 0 <= i < after.len() implies {
        &&& (#[trigger] after[i]).setup_path == producer_of(now, after[i].name@, Role::Setup)
        &&& after[i].bench_path == producer_of(now, after[i].name@, Role::Benchmark)
    } by {
        if i != p {
            assert(after[i] == groups[i]);
        }
    }
    assert forall|other: Seq<char>, any: Role| #[trigger]
        producer_of(now, other, any) is Some implies named(after, other) by {
        if other == name {
            assert(after[p].name@ == name);
        } else {
            assert(producer_of(rest, other, any) is Some);
            assert(named(groups, other));
            let i = choose|i: int| 0 <= i < groups.len() && (#[trigger] groups[i]).name@ == other;
            assert(after[i] == groups[i]);
        }
    }
}

/// `loader` was made from `group`.
spec fn made_from(loader: BenchmarkLoader, group: Group) -> bool {
    &&& loader@.name == group.name@
    &&& loader@.setup_path == group.setup_path
    &&& group.bench_path == Some(loader@.bench_path)
}

/// One of the groups from position `from` on gave `loader`.
spec fn has_source(loader: BenchmarkLoader, groups: Seq<Group>, from: int) -> bool {
    exists|i: int| from <= i < groups.len() && #[trigger] made_from(loader, groups[i])
}

/// One of `loaders` was made from `group`.
spec fn has_loader(group: Group, loaders: Seq<BenchmarkLoader>) -> bool {
    exists|j: int| 0 <= j < loaders.len() && #[trigger] made_from(loaders[j], group)
}

/// `loaders` is in strictly ascending order of name.
spec fn loaders_in_order(loaders: Seq<BenchmarkLoader>) -> bool {
    forall|i: int, j: int|
        0 <= i < j < loaders.len() ==> name_lt(
            (#[trigger] loaders[i])@.name,
            (#[trigger] loaders[j])@.name,
        )
}

/// `loaders` is what the groups from position `from` on give: one loader
/// for each of them that has a benchmark producer, in order of name.
spec fn selected(loaders: Seq<BenchmarkLoader>, groups: Seq<Group>, from: int) -> bool {
    &&& loaders_in_order(loaders)
    &&& forall|j: int| 0 <= j < loaders.len() ==> has_source(#[trigger] loaders[j], groups, from)
    &&& forall|i: int|
        from <= i < groups.len() && (#[trigger] groups[i]).bench_path is Some ==> has_loader(
            groups[i],
            loaders,
        )
}

/// A loader made from a group comes before the loaders of all groups after
/// that group.
proof fn lemma_select_order(
    listed: Seq<BenchmarkLoader>,
    groups: Seq<Group>,
    m: int,
    loader: BenchmarkLoader,
)
    requires
        in_order(groups),
        0 <= m < groups.len(),
        loaders_in_order(listed),
        forall|j: int| 0 <= j < listed.len() ==> has_source(#[trigger] listed[j], groups, m + 1),
        made_from(loader, groups[m]),
    ensures
        loaders_in_order(listed.insert(0, loader)),
{
    let after = listed.insert(0, loader);
    assert forall|i: int, j: int| 0 <= i < j < after.len() implies name_lt(
        (#[trigger] after[i])@.name,
        (#[trigger] after[j])@.name,
    ) by {
        assert(after[j] == listed[j - 1]);
        if i == 0 {
            assert(after[0] == loader);
            assert(has_source(listed[j - 1], groups, m + 1));
            let w = choose|w: int|
                m + 1 <= w < groups.len() && #[trigger] made_from(listed[j - 1], groups[w]);
            assert(name_lt(groups[m].name@, groups[w].name@));
        } else {
            assert(after[i] == listed[i - 1]);
        }
    }
}

/// Every loader still has its group when one more group is looked at.
proof fn lemma_sources_widen(listed: Seq<BenchmarkLoader>, groups: Seq<Group>, m: int)
    requires
        0 <= m < groups.len(),
        forall|j: int| 0 <= j < listed.len() ==> has_source(#[trigger] listed[j], groups, m + 1),
    ensures
        forall|j: int| 0 <= j < listed.len() ==> has_source(#[trigger] listed[j], groups, m),
{
    assert forall|j: int| 0 <= j < listed.len() implies has_source(
        #[trigger] listed[j],
        groups,
        m,
    ) by {
        assert(has_source(listed[j], groups, m + 1));
        let i = choose|i: int|
            m + 1 <= i < groups.len() && #[trigger] made_from(listed[j], groups[i]);
        assert(made_from(listed[j], groups[i]));
    }
}

/// A group that has its loader among `listed` has it among `listed` with
/// one more loader in front.
proof fn lemma_loader_stays(group: Group, listed: Seq<BenchmarkLoader>, loader: BenchmarkLoader)
    requires
        has_loader(group, listed),
    ensures
        has_loader(group, listed.insert(0, loader)),
{
    let after = listed.insert(0, loader);
    let j = choose|j: int| 0 <= j < listed.len() && #[trigger] made_from(listed[j], group);
    assert(after[j + 1] == listed[j]);
    assert(made_from(after[j + 1], group));
}

/// A group with a benchmark producer puts its loader before those of the
/// groups after it.
proof fn lemma_select(
    listed: Seq<BenchmarkLoader>,
    groups: Seq<Group>,
    m: int,
    loader: BenchmarkLoader,
)
    requires
        in_order(groups),
        0 <= m < groups.len(),
        selected(listed, groups, m + 1),
        made_from(loader, groups[m]),
    ensures
        selected(listed.insert(0, loader), groups, m),
{
    let after = listed.insert(0, loader);
    lemma_select_order(listed, groups, m, loader);
    lemma_sources_widen(listed, groups, m);
    assert(after[0] == loader);
    assert forall|j: int| 0 <= j < after.len() implies has_source(
        #[trigger] after[j],
        groups,
        m,
    ) by {
        if j == 0 {
            assert(made_from(after[0], groups[m]));
        } else {
            assert(after[j] == listed[j - 1]);
        }
    }
    assert forall|i: int|
        m <= i < groups.len() && (#[trigger] groups[i]).bench_path is Some implies has_loader(
        groups[i],
        after,
    ) by {
        if i == m {
            assert(made_from(after[0], groups[m]));
        } else {
            lemma_loader_stays(groups[i], listed, loader);
        }
    }
}

/// A group without a benchmark producer gives no loader.
proof fn lemma_pass_over(listed: Seq<BenchmarkLoader>, groups: Seq<Group>, m: int)
    requires
        0 <= m < groups.len(),
        selected(listed, groups, m + 1),
        groups[m].bench_path is None,
    ensures
        selected(listed, groups, m),
{
    lemma_sources_widen(listed, groups, m);
}

/// What all the groups give is the catalogue of the files they reflect.
proof fn lemma_selected_is_catalogue(
    loaders: Seq<BenchmarkLoader>,
    groups: Seq<Group>,
    files: Seq<FoundFile>,
)
    requires
        reflects(groups, files),
        selected(loaders, groups, 0),
    ensures
        catalogue(files, loaders),
{
    assert forall|j: int| 0 <= j < loaders.len() implies {
        &&& producer_of(files, (#[trigger] loaders[j])@.name, Role::Benchmark) == Some(
            loaders[j]@.bench_path,
        )
        &&& producer_of(files, loaders[j]@.name, Role::Setup) == loaders[j]@.setup_path
    } by {
        assert(has_source(loaders[j], groups, 0));
        let i = choose|i: int| 0 <= i < groups.len() && #[trigger] made_from(loaders[j], groups[i]);
        assert(groups[i].name@ == loaders[j]@.name);
    }
    assert forall|name: Seq<char>| #[trigger]
        producer_of(files, name, Role::Benchmark) is Some implies exists|j: int|
        0 <= j < loaders.len() && (#[trigger] loaders[j])@.name == name by {
        assert(named(groups, name));
        let i = choose|i: int| 0 <= i < groups.len() && (#[trigger] groups[i]).name@ == name;
        assert(groups[i].bench_path is Some);
        assert(has_loader(groups[i], loaders));
        let j = choose|j: int| 0 <= j < loaders.len() && #[trigger] made_from(loaders[j], groups[i]);
        assert(loaders[j]@.name == name);
    }
}

/// The role that a file has by its name, if any.
fn role_by_name(file_name: &String) -> (role: Option<Role>)
    ensures
        role == role_of(file_name@),
{
    let setup = String::from_str("setup");
    let benchmark = String::from_str("benchmark");
    if *file_name == setup {
        Some(Role::Setup)
    } else if *file_name == benchmark {
        Some(Role::Benchmark)
    } else {
        None
    }
}

/// Takes `file` into `groups`, which hold the files met after it.
fn claim(groups: &mut Vec<Group>, file: FoundFile, Ghost(rest): Ghost<Seq<FoundFile>>)
    requires
        reflects(old(groups)@, rest),
    ensures
        reflects(final(groups)@, seq![file] + rest),
{
    let ghost now = seq![file] + rest;
    assert(now.drop_first() == rest);
    assert(now.first() == file);
    let FoundFile { file_name, directory, path } = file;
    let role = role_by_name(&file_name);
    match (role, directory) {
        (Some(role), Some(name)) => {
            let mut p: usize = 0;
            while p < groups.len() && name_before(groups[p].name.as_str(), name.as_str())
                invariant
                    p <= groups@.len(),
                    forall|i: int| 0 <= i < p ==> name_lt((#[trigger] groups@[i]).name@, name@),
                decreases groups@.len() - p,
            {
                p += 1;
            }
            if p < groups.len() && groups[p].name == name {
                let ghost before = groups@;
                let known = groups.remove(p);
                let Group { name: known_name, setup_path, bench_path } = known;
                let updated = match role {
                    Role::Setup => Group {
                        name: known_name,
                        setup_path: if setup_path.is_some() {
                            setup_path
                        } else {
                            Some(path)
                        },
                        bench_path,
                    },
                    Role::Benchmark => Group {
                        name: known_name,
                        setup_path,
                        bench_path: if bench_path.is_some() {
                            bench_path
                        } else {
                            Some(path)
                        },
                    },
                };
                proof {
                    lemma_claim_known(before, rest, now, p as int, updated, role);
                }
                groups.insert(p, updated);
            } else {
                let fresh = match role {
                    Role::Setup => Group { name, setup_path: Some(path), bench_path: None },
                    Role::Benchmark => Group { name, setup_path: None, bench_path: Some(path) },
                };
                proof {
                    lemma_claim_new(groups@, rest, now, p as int, fresh, role);
                }
                groups.insert(p, fresh);
            }
        },
        _ => {
            proof {
                lemma_unclaimed(groups@, rest, now);
            }
        },
    }
}

/// Find all benchmarks among the files met in the benchmark directories.
///
/// `files` lists the files in the order in which the walk met them. The
/// loaders come out in ascending order of name, one for each directory that
/// holds a file `benchmark`.
pub fn find_benchmarks(files: Vec<FoundFile>) -> (loaders: Vec<BenchmarkLoader>)
    ensures
        catalogue(files@, loaders@),
{
    let ghost all = files@;
    let mut files = files;
    let mut groups: Vec<Group> = Vec::new();
    assert(all.skip(all.len() as int) =~= Seq::<FoundFile>::empty());
    while files.len() > 0
        invariant
            files@.len() <= all.len(),
            files@ == all.take(files@.len() as int),
            reflects(groups@, all.skip(files@.len() as int)),
        decreases files@.len(),
    {
        let ghost rest = all.skip(files@.len() as int);
        let file = files.pop().unwrap();
        assert(seq![file] + rest =~= all.skip(files@.len() as int));
        assert(files@ =~= all.take(files@.len() as int));
        claim(&mut groups, file, Ghost(rest));
    }
    assert(all.skip(0) =~= all);

    // Combine name/setup/benchmark into a single benchmark loader.
    let ghost gathered = groups@;
    let mut loaders: Vec<BenchmarkLoader> = Vec::new();
    while groups.len() > 0
        invariant
            in_order(gathered),
            groups@.len() <= gathered.len(),
            groups@ == gathered.take(groups@.len() as int),
            selected(loaders@, gathered, groups@.len() as int),
        decreases groups@.len(),
    {
        let ghost m = groups@.len() - 1;
        let ghost listed = loaders@;
        let group = groups.pop().unwrap();
        assert(group == gathered[m]);
        assert(groups@ =~= gathered.take(m));
        let Group { name, setup_path, bench_path } = group;
        match bench_path {
            Some(bench_path) => {
                let loader = BenchmarkLoader::new(name, setup_path, bench_path);
                proof {
                    lemma_select(listed, gathered, m, loader);
                }
                loaders.insert(0, loader);
            },
            None => {
                proof {
                    lemma_pass_over(listed, gathered, m);
                }
            },
        }
    }
    proof {
        lemma_selected_is_catalogue(loaders@, gathered, all);
    }
    loaders
}

} // verus!
