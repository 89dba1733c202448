//! That a path goes on leading where it led, as long as the directories on
//! its way list what they did.
use vstd::prelude::*;

use crate::dir::Listing;
use crate::error::Fault;
use crate::operations;
use crate::volume;
use crate::volume::Volume;

verus! {

/// Whether every directory that one listing leads to, the other leads to by
/// the same name.
pub open spec fn leads_alike(before: Listing, after: Listing) -> bool {
    forall|name: Seq<char>| #[trigger]
        before.find(name) is Some && before.find(name)->0.is_directory() ==> after.find(name) is Some
            && after.find(name)->0.is_directory() && after.find(name)->0.first_cluster
            == before.find(name)->0.first_cluster
}

/// Whether every entry that one listing has by some name, the other has by it
/// too; but for the entry in one slot, if any.
pub open spec fn finds_alike(before: Listing, after: Listing, but: Option<u32>) -> bool {
    forall|name: Seq<char>| #[trigger]
        before.find(name) is Some && but != Some(before.find(name)->0.index) ==> after.find(name)
            == before.find(name)
}

/// Whether every directory that one volume holds, the other holds alike; but
/// for one of them, which may list more or less, as long as it leads to the
/// same directories.
pub open spec fn remembers(before: Volume, after: Volume, but: u32) -> bool {
    &&& after.boot == before.boot
    &&& forall|d: u32|
        d != but && #[trigger] before.directories.contains_key(d)
            ==> after.directories.contains_key(d) && after.directories[d] == before.directories[d]
    &&& before.directories.contains_key(but) && after.read_dir(but).1 is Ok ==> leads_alike(
        before.directories[but],
        after.read_dir(but).1->Ok_0,
    )
}

/// Walking a path forgets nothing that is held.
pub proof fn lemma_resolve_holds(volume: Volume, cluster: u32, path: Seq<char>, d: u32)
    requires
        volume.directories.contains_key(d),
    ensures
        volume.resolve(cluster, path).0.directories.contains_key(d),
        volume.resolve(cluster, path).0.directories[d] == volume.directories[d],
    decreases path.len(),
{
    let name = volume::first_component(path);
    let rest = volume::after_component(path);
    if path.len() > 0 {
        if name.len() == 0 || name =~= seq!['.'] {
            lemma_resolve_holds(volume, cluster, rest, d);
        } else {
            let (entered, result) = volume.enter(cluster, name);
            assert(entered.directories.contains_key(d) && entered.directories[d]
                == volume.directories[d]) by {
                reveal(Volume::read_dir);
            }
            if result is Ok {
                lemma_resolve_holds(entered, result->Ok_0, rest, d);
            }
        }
    }
}

/// A path that led somewhere leads there again, or nowhere: the latter only
/// if the directory that is not held alike cannot be read.
pub proof fn lemma_resolve_again(
    before: Volume,
    after: Volume,
    cluster: u32,
    path: Seq<char>,
    but: u32,
)
    requires
        before.resolve(cluster, path).1 is Ok,
        remembers(before.resolve(cluster, path).0, after, but),
    ensures
        after.resolve(cluster, path).1 is Ok ==> after.resolve(cluster, path).1 == before.resolve(
            cluster,
            path,
        ).1,
        after.read_dir(but).1 is Ok ==> after.resolve(cluster, path).1 is Ok,
        after.resolve(cluster, path).0.looks_like(after),
        remembers(before.resolve(cluster, path).0, after.resolve(cluster, path).0, but),
    decreases path.len(),
{
    volume::lemma_resolve_looks(after, cluster, path);
    volume::lemma_resolve_looks(before, cluster, path);
    let last = before.resolve(cluster, path).0;
    let name = volume::first_component(path);
    let rest = volume::after_component(path);
    if path.len() > 0 {
        if name.len() == 0 || name =~= seq!['.'] {
            lemma_resolve_again(before, after, cluster, rest, but);
        } else {
            let (read, found) = before.read_dir(cluster);
            let (entered, next) = before.enter(cluster, name);
            assert(read.directories.contains_key(cluster) && read.directories[cluster]
                == found->Ok_0) by {
                reveal(Volume::read_dir);
            }
            lemma_resolve_holds(entered, next->Ok_0, rest, cluster);
            let (read_again, found_again) = after.read_dir(cluster);
            assert(remembers(last, read_again, but)) by {
                lemma_remembers_read(last, after, cluster, but);
            }
            volume::lemma_read_dir_looks(after, cluster);
            if cluster == but {
                if found_again is Ok {
                    assert(leads_alike(last.directories[but], found_again->Ok_0));
                }
                assert(found->Ok_0.find(name) is Some);
            } else {
                assert(after.directories.contains_key(cluster));
                assert(found_again == Ok::<Listing, Fault>(last.directories[cluster])) by {
                    reveal(Volume::read_dir);
                }
            }
            if found_again is Ok {
                assert(after.enter(cluster, name) == (read_again, next)) by {
                    assert(entered.boot == before.boot) by {
                        volume::lemma_read_dir_looks(before, cluster);
                    }
                    volume::lemma_resolve_looks(entered, next->Ok_0, rest);
                }
                lemma_read_again(after, cluster, but);
                lemma_resolve_again(entered, read_again, next->Ok_0, rest, but);
            }
        }
    }
}

/// Reading a directory leaves what can be read readable.
proof fn lemma_read_again(volume: Volume, cluster: u32, other: u32)
    ensures
        volume.read_dir(other).1 is Ok ==> volume.read_dir(cluster).0.read_dir(other).1 is Ok,
        volume.read_dir(cluster).0.read_dir(other).1 is Ok && volume.read_dir(cluster).1 is Ok
            ==> volume.read_dir(other).1 == volume.read_dir(cluster).0.read_dir(other).1,
{
    reveal(Volume::read_dir);
    let read = volume.read_dir(cluster).0;
    assert(read.chain_bytes(read.table.chain(other)->Ok_0) =~= volume.chain_bytes(
        volume.table.chain(other)->Ok_0,
    ));
}

/// Reading a directory leaves everything remembered.
pub proof fn lemma_remembers_read(before: Volume, after: Volume, cluster: u32, but: u32)
    requires
        remembers(before, after, but),
    ensures
        remembers(before, after.read_dir(cluster).0, but),
{
    reveal(Volume::read_dir);
    let read = after.read_dir(cluster).0;
    assert(read.chain_bytes(read.table.chain(but)->Ok_0) =~= after.chain_bytes(
        after.table.chain(but)->Ok_0,
    ));
}

/// A slash at the end adds a last component with nothing in it.
proof fn lemma_slash_after(path: Seq<char>)
    ensures
        volume::first_component(path.push('/')) == volume::first_component(path),
        volume::first_component(path).len() <= path.len(),
    decreases path.len(),
{
    if path.len() > 0 && path[0] != '/' {
        lemma_slash_after(path.skip(1));
        assert(path.push('/').skip(1) =~= path.skip(1).push('/'));
    }
}

/// A slash at the end of a path does not change where it leads.
proof fn lemma_resolve_slash(volume: Volume, cluster: u32, path: Seq<char>)
    ensures
        volume.resolve(cluster, path.push('/')) == volume.resolve(cluster, path),
    decreases path.len(),
{
    lemma_slash_after(path);
    let name = volume::first_component(path);
    let rest = volume::after_component(path);
    let longer = path.push('/');
    if path.len() == 0 {
        assert(volume::after_component(longer) =~= Seq::empty());
        assert(volume.resolve(cluster, Seq::empty()).1 == Ok::<u32, Fault>(cluster));
    } else {
        if name.len() < path.len() {
            assert(volume::after_component(longer) =~= rest.push('/'));
            if name.len() == 0 || name =~= seq!['.'] {
                lemma_resolve_slash(volume, cluster, rest);
            } else {
                let (entered, next) = volume.enter(cluster, name);
                if next is Ok {
                    lemma_resolve_slash(entered, next->Ok_0, rest);
                }
            }
        } else {
            assert(volume::after_component(longer) =~= rest);
        }
    }
}

/// A slash before or after a path, or a step into the directory itself before
/// it, changes nothing: the same directory is read, by the same calls.
pub proof fn lemma_same_directory(volume: Volume, path: Seq<char>)
    ensures
        volume.open_dir(seq!['/'] + path) == volume.open_dir(path),
        volume.open_dir(seq!['.', '/'] + path) == volume.open_dir(path),
        volume.open_dir(path.push('/')) == volume.open_dir(path),
{
    let root = volume.boot.root_cluster;
    let slashed = seq!['/'] + path;
    assert(volume::after_component(slashed) =~= path);
    assert(volume.resolve(root, slashed) == volume.resolve(root, path));
    let dotted = seq!['.', '/'] + path;
    assert(dotted.skip(1) =~= slashed);
    assert(volume::first_component(dotted) =~= seq!['.']) by {
        assert(volume::first_component(slashed) =~= Seq::empty());
    }
    assert(volume::after_component(dotted) =~= path);
    assert(volume.resolve(root, dotted) == volume.resolve(root, path));
    lemma_resolve_slash(volume, root, path);
}

/// A slash after a path's first part ends it.
proof fn lemma_first_joined(a: Seq<char>, b: Seq<char>)
    ensures
        volume::first_component(a + seq!['/'] + b) == volume::first_component(a),
        volume::first_component(a).len() <= a.len(),
    decreases a.len(),
{
    if a.len() > 0 && a[0] != '/' {
        lemma_first_joined(a.skip(1), b);
        assert((a + seq!['/'] + b).skip(1) =~= a.skip(1) + seq!['/'] + b);
    }
}

/// A path with a slash in it is walked up to the slash, and from there on.
pub proof fn lemma_joined(volume: Volume, cluster: u32, a: Seq<char>, b: Seq<char>)
    ensures
        volume.resolve(cluster, a + seq!['/'] + b) == (match volume.resolve(cluster, a) {
            (walked, Ok(next)) => walked.resolve(next, b),
            (walked, Err(fault)) => (walked, Err(fault)),
        }),
    decreases a.len(),
{
    lemma_first_joined(a, b);
    let path = a + seq!['/'] + b;
    let name = volume::first_component(a);
    let rest = volume::after_component(a);
    if a.len() == 0 {
        assert(volume::after_component(path) =~= b);
    } else if name.len() < a.len() {
        assert(volume::after_component(path) =~= rest + seq!['/'] + b);
        if name.len() == 0 || name =~= seq!['.'] {
            lemma_joined(volume, cluster, rest, b);
        } else {
            let (entered, next) = volume.enter(cluster, name);
            if next is Ok {
                lemma_joined(entered, next->Ok_0, rest, b);
            }
        }
    } else {
        assert(volume::after_component(path) =~= b);
        assert(rest =~= Seq::empty());
        if name =~= seq!['.'] {
            assert(volume.resolve(cluster, rest) == (volume, Ok::<u32, Fault>(cluster)));
        } else {
            let (entered, next) = volume.enter(cluster, name);
            if next is Ok {
                assert(entered.resolve(next->Ok_0, rest) == (entered, next));
            }
        }
    }
}

/// Whether this is one part of a path that leads somewhere.
pub open spec fn is_step(step: Seq<char>) -> bool {
    &&& step.len() > 0
    &&& forall|i: int| 0 <= i < step.len() ==> #[trigger] step[i] != '/'
    &&& step != seq!['.']
}

/// A part without a slash is its own first part.
proof fn lemma_one_part(step: Seq<char>)
    requires
        forall|i: int| 0 <= i < step.len() ==> #[trigger] step[i] != '/',
    ensures
        volume::first_component(step) == step,
    decreases step.len(),
{
    if step.len() > 0 {
        lemma_one_part(step.skip(1));
        assert(step =~= seq![step[0]] + step.skip(1));
    }
}

/// The last step of a path.
proof fn lemma_last_step(volume: Volume, cluster: u32, step: Seq<char>)
    requires
        is_step(step),
    ensures
        volume.resolve(cluster, step) == volume.enter(cluster, step),
{
    lemma_one_part(step);
    assert(volume::after_component(step) =~= Seq::empty());
    let (entered, next) = volume.enter(cluster, step);
    if next is Ok {
        assert(entered.resolve(next->Ok_0, volume::after_component(step)) == (entered, next));
    }
}

/// The first step that leads nowhere is what the answer names: a step that is
/// missing is not found, and one that is a file is not a directory, whatever
/// comes after it.
pub proof fn lemma_first_bad_step(
    volume: Volume,
    way: Seq<char>,
    step: Seq<char>,
    rest: Seq<char>,
)
    requires
        is_step(step),
        ({
            let (walked, leads) = volume.resolve(volume.boot.root_cluster, way);
            &&& leads is Ok
            &&& walked.read_dir(leads->Ok_0).1 is Ok
        }),
    ensures
        ({
            let (walked, leads) = volume.resolve(volume.boot.root_cluster, way);
            let found = walked.read_dir(leads->Ok_0).1->Ok_0.find(step);
            let path = way + seq!['/'] + step;
            let longer = path + seq!['/'] + rest;
            &&& found is None ==> {
                &&& volume.open_dir(path).1 == Err::<Listing, Fault>(Fault::NotFound { name: step })
                &&& volume.open_dir(longer).1 == Err::<Listing, Fault>(
                    Fault::NotFound { name: step },
                )
            }
            &&& found is Some && !found->0.is_directory() ==> {
                &&& volume.open_dir(path).1 == Err::<Listing, Fault>(
                    Fault::NotADirectory { name: step },
                )
                &&& volume.open_dir(longer).1 == Err::<Listing, Fault>(
                    Fault::NotADirectory { name: step },
                )
            }
        }),
{
    let root = volume.boot.root_cluster;
    let path = way + seq!['/'] + step;
    let (walked, leads) = volume.resolve(root, way);
    lemma_joined(volume, root, way, step);
    lemma_joined(volume, root, path, rest);
    lemma_last_step(walked, leads->Ok_0, step);
}

/// No path, or a slash alone, leads to the root.
pub proof fn lemma_root_path(volume: Volume)
    ensures
        volume.open_dir(Seq::empty()) == volume.read_dir(volume.boot.root_cluster),
        volume.open_dir(seq!['/']) == volume.read_dir(volume.boot.root_cluster),
{
    let root = volume.boot.root_cluster;
    assert(volume.resolve(root, Seq::empty()) == (volume, Ok::<u32, Fault>(root)));
    lemma_same_directory(volume, Seq::empty());
    assert(seq!['/'] + Seq::<char>::empty() =~= seq!['/']);
}

/// The parent of a child of the root is the root: where a directory's own entry
/// for its parent names cluster 0, as it does in every child of the root, the
/// path on to the parent leads to the root, and lists what the root lists.
pub proof fn lemma_parent_is_root(volume: Volume, way: Seq<char>)
    requires
        volume.coherent_at(volume.boot.root_cluster),
        ({
            let (walked, leads) = volume.resolve(volume.boot.root_cluster, way);
            let found = walked.read_dir(leads->Ok_0).1->Ok_0.find(seq!['.', '.']);
            &&& leads is Ok
            &&& walked.read_dir(leads->Ok_0).1 is Ok
            &&& found is Some
            &&& found->0.is_directory()
            &&& found->0.first_cluster == 0
        }),
    ensures
        volume.open_dir(way + seq!['/', '.', '.']).1 == volume.open_dir(seq!['/']).1,
{
    let root = volume.boot.root_cluster;
    let up = seq!['.', '.'];
    let path = way + seq!['/'] + up;
    assert(way + seq!['/', '.', '.'] =~= path);
    let (walked, leads) = volume.resolve(root, way);
    lemma_joined(volume, root, way, up);
    assert(up != seq!['.']) by {
        assert(up.len() == 2);
    }
    lemma_last_step(walked, leads->Ok_0, up);
    volume::lemma_resolve_looks(volume, root, way);
    let entered = walked.enter(leads->Ok_0, up).0;
    assert(volume.resolve(root, path) == (entered, Ok::<u32, Fault>(root)));
    crate::creation::lemma_resolve_coherent(volume, root, path, root);
    volume::lemma_resolve_looks(volume, root, path);
    crate::laws::lemma_read_dir(entered, root);
    crate::laws::lemma_read_dir(volume, root);
    assert(entered.stored(root) =~= volume.stored(root));
    lemma_root_path(volume);
}

/// Nothing after the last of a character is that character.
proof fn lemma_none_after(text: Seq<char>, wanted: char)
    ensures
        crate::text::last_position(text, wanted) matches Some(at) ==> 0 <= at < text.len()
            && text[at] == wanted && forall|i: int| at < i < text.len() ==> #[trigger] text[i]
            != wanted,
        crate::text::last_position(text, wanted) is None ==> forall|i: int|
            0 <= i < text.len() ==> #[trigger] text[i] != wanted,
    decreases text.len(),
{
    if text.len() > 0 && text.last() != wanted {
        lemma_none_after(text.drop_last(), wanted);
        assert forall|i: int| 0 <= i < text.len() - 1 implies #[trigger] text[i]
            == text.drop_last()[i] by {}
    }
}

/// A path is its parent's, a slash and its name, or its name alone.
pub proof fn lemma_path_parts(path: Seq<char>)
    ensures
        forall|i: int|
            0 <= i < operations::name_of(path).len() ==> #[trigger] operations::name_of(path)[i]
                != '/',
        path == operations::name_of(path) && operations::parent_of(path).len() == 0 || path
            == operations::parent_of(path) + seq!['/'] + operations::name_of(path),
{
    lemma_none_after(path, '/');
    let name = operations::name_of(path);
    match crate::text::last_position(path, '/') {
        Some(at) => {
            assert(path =~= operations::parent_of(path) + seq!['/'] + name);
            assert forall|i: int| 0 <= i < name.len() implies #[trigger] name[i] != '/' by {
                assert(name[i] == path[at + 1 + i]);
            }
        },
        None => {},
    }
}

/// A name after a slash is what a path ends in, and what is before the slash
/// its parent's path.
pub proof fn lemma_parent_and_name(parent: Seq<char>, name: Seq<char>)
    requires
        forall|i: int| 0 <= i < name.len() ==> #[trigger] name[i] != '/',
    ensures
        operations::parent_of(parent + seq!['/'] + name) == parent,
        operations::name_of(parent + seq!['/'] + name) == name,
{
    let path = parent + seq!['/'] + name;
    lemma_none_after(path, '/');
    assert(path[parent.len() as int] == '/');
    match crate::text::last_position(path, '/') {
        Some(at) => {
            if at > parent.len() {
                assert(path[at] == name[at - parent.len() - 1]);
            }
            assert(at == parent.len());
            assert(path.take(at) =~= parent);
            assert(path.skip(at + 1) =~= name);
        },
        None => {},
    }
}

/// A path is walked up to its parent, and from there by its name.
pub proof fn lemma_resolve_parts(volume: Volume, path: Seq<char>)
    requires
        is_step(operations::name_of(path)),
    ensures
        ({
            let root = volume.boot.root_cluster;
            volume.resolve(root, path) == (match volume.resolve(
                root,
                operations::parent_of(path),
            ) {
                (walked, Ok(parent)) => walked.enter(parent, operations::name_of(path)),
                (walked, Err(fault)) => (walked, Err(fault)),
            })
        }),
{
    let root = volume.boot.root_cluster;
    let (parent, name) = (operations::parent_of(path), operations::name_of(path));
    lemma_path_parts(path);
    let (walked, leads) = volume.resolve(root, parent);
    if leads is Ok {
        lemma_last_step(walked, leads->Ok_0, name);
    }
    if path == parent + seq!['/'] + name {
        lemma_joined(volume, root, parent, name);
    } else {
        assert(parent =~= Seq::empty());
        assert(volume.resolve(root, parent) == (volume, Ok::<u32, Fault>(root)));
    }
}

} // verus!
