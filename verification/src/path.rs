//! Paths as Unix writes them, taken apart into components and put together
//! again without touching the file system.
//!
//! `/` is the only separator: a backslash is a character of a name like any
//! other, and a path has no drive or share in front.
use crate::text::{law_split_parts, law_split_whole, split, split_by, starts_with, texts};
use vstd::prelude::*;

verus! {

/// One component of a path.
#[derive(Debug, Clone, PartialEq, Eq)]
pub enum Component {
    /// The root directory: a leading `/`.
    RootDir,
    /// The current directory: a leading `.`.
    CurDir,
    /// The parent directory: `..`.
    ParentDir,
    /// A file or directory name.
    Normal(String),
    /// A file or directory name that is not valid UTF-8.
    Opaque(Vec<u8>),
}

/// What a [`Component`] stands for.
pub enum Step {
    Root,
    Current,
    Parent,
    Name(Seq<char>),
    Raw(Seq<u8>),
}

impl View for Component {
    type V = Step;

    open spec fn view(&self) -> Step {
        match self {
            Component::RootDir => Step::Root,
            Component::CurDir => Step::Current,
            Component::ParentDir => Step::Parent,
            Component::Normal(name) => Step::Name(name@),
            Component::Opaque(bytes) => Step::Raw(bytes@),
        }
    }
}

impl Component {
    /// Copies the component.
    pub fn copy(&self) -> (r: Component)
        ensures
            r@ == self@,
    {
        match self {
            Component::RootDir => Component::RootDir,
            Component::CurDir => Component::CurDir,
            Component::ParentDir => Component::ParentDir,
            Component::Normal(name) => Component::Normal(name.clone()),
            Component::Opaque(bytes) => {
                let copied: Vec<u8> = bytes.clone();
                assert(copied@ =~= bytes@);
                Component::Opaque(copied)
            },
        }
    }

    /// Reports whether two components stand for the same thing.
    pub fn same(&self, other: &Component) -> (r: bool)
        ensures
            r == (self@ == other@),
    {
        match (self, other) {
            (Component::RootDir, Component::RootDir) => true,
            (Component::CurDir, Component::CurDir) => true,
            (Component::ParentDir, Component::ParentDir) => true,
            (Component::Normal(a), Component::Normal(b)) => *a == *b,
            (Component::Opaque(a), Component::Opaque(b)) => same_bytes(a, b),
            _ => false,
        }
    }
}

/// Reports whether two byte strings are equal.
fn same_bytes(a: &Vec<u8>, b: &Vec<u8>) -> (r: bool)
    ensures
        r == (a@ == b@),
{
    if a.len() != b.len() {
        return false;
    }
    let mut i: usize = 0;
    while i < a.len()
        invariant
            i <= a.len() == b.len(),
            forall|j: int| 0 <= j < i ==> a@[j] == b@[j],
        decreases a.len() - i,
    {
        if a[i] != b[i] {
            return false;
        }
        i += 1;
    }
    assert(a@ =~= b@);
    true
}

/// A path as the sequence of its components.
#[derive(Debug, Clone, PartialEq, Eq)]
pub struct FilePath {
    pub components: Vec<Component>,
}

impl View for FilePath {
    type V = Seq<Step>;

    open spec fn view(&self) -> Seq<Step> {
        steps(self.components@)
    }
}

/// What each component stands for, in order.
pub open spec fn steps(components: Seq<Component>) -> Seq<Step> {
    components.map_values(|c: Component| c@)
}

/// Whether the step is a file or directory name.
pub open spec fn named(step: Step) -> bool {
    step is Name || step is Raw
}

/// The step that one slash-free segment of a path names; none for an empty
/// segment and for `.`.
pub open spec fn segment_step(segment: Seq<char>) -> Option<Step> {
    if segment.len() == 0 || segment == "."@ {
        None
    } else if segment == ".."@ {
        Some(Step::Parent)
    } else {
        Some(Step::Name(segment))
    }
}

/// The steps that a path's segments name.
pub open spec fn segment_steps(segments: Seq<Seq<char>>) -> Seq<Step>
    decreases segments.len(),
{
    if segments.len() == 0 {
        seq![]
    } else {
        let front = segment_steps(segments.drop_last());
        match segment_step(segments.last()) {
            Some(step) => front.push(step),
            None => front,
        }
    }
}

/// The steps of the path written `s`: empty segments and `.` are left out,
/// except for a leading `.`.
pub open spec fn path_steps(s: Seq<char>) -> Seq<Step> {
    let segments = split_by(s, '/');
    let head = if "/"@.is_prefix_of(s) {
        seq![Step::Root]
    } else if segments[0] == "."@ {
        seq![Step::Current]
    } else {
        seq![]
    };
    head + segment_steps(segments)
}

/// Whether `.` and `/` stand only where a path can have them: in front.
pub open spec fn proper(path: Seq<Step>) -> bool {
    forall|i: int|
        0 < i < path.len() ==> !((#[trigger] path[i]) is Root) && !(path[i] is Current)
}

/// Whether the path starts at the root directory.
pub open spec fn absolute(path: Seq<Step>) -> bool {
    path.len() > 0 && path[0] is Root
}

/// The path without its last component; none for the empty path and for the
/// root directory.
pub open spec fn parent_of(path: Seq<Step>) -> Option<Seq<Step>> {
    if path.len() == 0 || path.last() is Root {
        None
    } else {
        Some(path.drop_last())
    }
}

/// The last component, where it is a name in UTF-8.
pub open spec fn last_name(path: Seq<Step>) -> Option<Seq<char>> {
    if path.len() > 0 {
        match path.last() {
            Step::Name(name) => Some(name),
            _ => None,
        }
    } else {
        None
    }
}

/// `rest` seen from `base`: an absolute `rest` replaces `base`, and a `.` that
/// `rest` starts with adds nothing to a non-empty `base`.
pub open spec fn joined(base: Seq<Step>, rest: Seq<Step>) -> Seq<Step> {
    if absolute(rest) {
        rest
    } else if base.len() > 0 && rest.len() > 0 && rest[0] is Current {
        base + rest.drop_first()
    } else {
        base + rest
    }
}

/// One step further along a path in which `.` and `name/..` are left out.
pub open spec fn walk(out: Seq<Step>, step: Step) -> Seq<Step> {
    match step {
        Step::Current => out,
        Step::Parent => if out.len() > 0 && named(out.last()) {
            out.drop_last()
        } else if out.len() > 0 && out.last() is Root {
            out
        } else {
            out.push(step)
        },
        _ => out.push(step),
    }
}

/// Every step of the path walked in turn.
pub open spec fn walked(path: Seq<Step>) -> Seq<Step>
    decreases path.len(),
{
    if path.len() == 0 {
        seq![]
    } else {
        walk(walked(path.drop_last()), path.last())
    }
}

/// The path in its shortest form that names the same place, as far as the path
/// alone tells; `.` where nothing is left.
pub open spec fn cleaned(path: Seq<Step>) -> Seq<Step> {
    let out = walked(path);
    if out.len() == 0 {
        seq![Step::Current]
    } else {
        out
    }
}

/// The place that `path` names when read in the directory `cwd`.
pub open spec fn resolved(cwd: Seq<Step>, path: Seq<Step>) -> Seq<Step> {
    cleaned(
        if absolute(path) {
            path
        } else {
            joined(cwd, path)
        },
    )
}

/// Whether a path is in its shortest form: just `.`, or a path with `/` only
/// in front, no `.`, and `..` only after nothing but `..`.
pub open spec fn clean(path: Seq<Step>) -> bool {
    ||| path == seq![Step::Current]
    ||| path.len() > 0 && compact(path)
}

/// The conditions on the steps of a path in its shortest form.
pub open spec fn compact(path: Seq<Step>) -> bool {
    &&& forall|i: int| 0 <= i < path.len() ==> !((#[trigger] path[i]) is Current)
    &&& forall|i: int| 0 < i < path.len() ==> !((#[trigger] path[i]) is Root)
    &&& forall|i: int, j: int|
        0 <= i < j < path.len() && (#[trigger] path[j]) is Parent ==> (#[trigger] path[i]) is Parent
}

pub proof fn lemma_steps_push(components: Seq<Component>, c: Component)
    ensures
        steps(components.push(c)) == steps(components).push(c@),
{
    assert(steps(components.push(c)) =~= steps(components).push(c@));
}

/// Walking one more step.
pub proof fn lemma_walked_push(path: Seq<Step>, step: Step)
    ensures
        walked(path.push(step)) == walk(walked(path), step),
{
    assert(path.push(step).drop_last() =~= path);
}

/// What is walked is compact.
pub proof fn lemma_walked_compact(path: Seq<Step>)
    requires
        proper(path),
    ensures
        compact(walked(path)),
        path.len() > 0 && path[0] is Root ==> walked(path).len() > 0 && walked(path)[0] is Root,
    decreases path.len(),
{
    if path.len() > 0 {
        let front = path.drop_last();
        assert forall|i: int| 0 < i < front.len() implies !((#[trigger] front[i]) is Root) && !(
        front[i] is Current) by {
            assert(path[i] == front[i]);
        }
        lemma_walked_compact(front);
        let out = walked(front);
        let next = walk(out, path.last());
        if path.len() == 1 {
            assert(out.len() == 0);
        } else {
            assert(path.last() == path[path.len() - 1]);
            assert(front[0] == path[0]);
            if path.last() is Parent && out.len() > 0 && !named(out.last()) && !(out.last() is Root) {
                assert(out.last() is Parent);
                assert forall|i: int| 0 <= i < out.len() implies (#[trigger] out[i]) is Parent by {
                    if i < out.len() - 1 {
                        assert(out[out.len() - 1] is Parent);
                    }
                }
            }
        }
    }
}

/// A compact path walks to itself.
pub proof fn lemma_walked_fixed(path: Seq<Step>)
    requires
        compact(path),
    ensures
        walked(path) == path,
    decreases path.len(),
{
    if path.len() > 0 {
        let front = path.drop_last();
        assert(compact(front)) by {
            assert forall|i: int, j: int|
                0 <= i < j < front.len() && (#[trigger] front[j]) is Parent implies (
            #[trigger] front[i]) is Parent by {
                assert(path[j] is Parent);
                assert(path[i] is Parent);
            }
        }
        lemma_walked_fixed(front);
        let last = path.last();
        assert(last == path[path.len() - 1]);
        if last is Parent && front.len() > 0 {
            assert(path[front.len() - 1] is Parent);
            assert(front.last() is Parent);
        }
        assert(front.push(last) =~= path);
    }
}

/// A cleaned path is in its shortest form.
pub proof fn law_cleaned_is_clean(path: Seq<Step>)
    requires
        proper(path),
    ensures
        clean(cleaned(path)),
{
    lemma_walked_compact(path);
}

/// Cleaning a path that is in its shortest form changes nothing.
pub proof fn law_clean_is_fixed(path: Seq<Step>)
    requires
        clean(path),
    ensures
        cleaned(path) == path,
{
    if path == seq![Step::Current] {
        assert(path.drop_last() =~= Seq::<Step>::empty());
        assert(walked(path.drop_last()) =~= Seq::<Step>::empty());
        assert(path.last() is Current);
    } else {
        lemma_walked_fixed(path);
    }
}

/// Cleaning twice is cleaning once.
pub proof fn law_cleaning_is_idempotent(path: Seq<Step>)
    requires
        proper(path),
    ensures
        cleaned(cleaned(path)) == cleaned(path),
{
    law_cleaned_is_clean(path);
    law_clean_is_fixed(cleaned(path));
}

/// A path read in an absolute directory resolves to an absolute path.
pub proof fn law_resolved_is_absolute(cwd: Seq<Step>, path: Seq<Step>)
    requires
        proper(cwd),
        proper(path),
        absolute(cwd),
    ensures
        absolute(resolved(cwd, path)),
{
    let full = if absolute(path) {
        path
    } else {
        joined(cwd, path)
    };
    assert(proper(full)) by {
        lemma_joined_proper(cwd, path);
    }
    assert(full[0] is Root);
    lemma_walked_compact(full);
}

/// A join of proper paths is proper.
pub proof fn lemma_joined_proper(base: Seq<Step>, rest: Seq<Step>)
    requires
        proper(base),
        proper(rest),
    ensures
        proper(joined(base, rest)),
{
    let full = joined(base, rest);
    if !absolute(rest) {
        let drop: int = if base.len() > 0 && rest.len() > 0 && rest[0] is Current {
            1
        } else {
            0
        };
        assert forall|i: int| 0 < i < full.len() implies !((#[trigger] full[i]) is Root) && !(
        full[i] is Current) by {
            if i < base.len() {
                assert(full[i] == base[i]);
            } else {
                assert(full[i] == rest[i - base.len() + drop]);
            }
        }
    }
}

/// A written path is proper.
pub proof fn law_path_steps_proper(s: Seq<char>)
    ensures
        proper(path_steps(s)),
{
    let segments = split_by(s, '/');
    lemma_segment_steps(segments);
    let path = path_steps(s);
    let tail = segment_steps(segments);
    assert forall|i: int| 0 < i < path.len() implies !((#[trigger] path[i]) is Root) && !(
    path[i] is Current) by {
        let head: int = path.len() - tail.len();
        assert(path[i] == tail[i - head]);
    }
}

proof fn lemma_segment_steps(segments: Seq<Seq<char>>)
    ensures
        forall|i: int|
            0 <= i < segment_steps(segments).len() ==> {
                let step = #[trigger] segment_steps(segments)[i];
                !(step is Root) && !(step is Current)
            },
    decreases segments.len(),
{
    if segments.len() > 0 {
        lemma_segment_steps(segments.drop_last());
    }
}

impl FilePath {
    /// Takes a written path apart.
    pub fn parse(s: &str) -> (r: FilePath)
        ensures
            r@ == path_steps(s@),
    {
        let segments: Vec<String> = split(s, '/');
        let mut components: Vec<Component> = Vec::new();
        let ghost parts = split_by(s@, '/');
        let dot: String = ".".to_owned();
        let dot_dot: String = "..".to_owned();
        assert(parts.len() > 0 && parts[0] == segments@[0]@);
        if starts_with(s, "/") {
            components.push(Component::RootDir);
        } else if segments[0] == dot {
            components.push(Component::CurDir);
        }
        let ghost head = steps(components@);
        let mut i: usize = 0;
        assert(head + segment_steps(parts.take(0)) =~= head);
        while i < segments.len()
            invariant
                i <= segments.len(),
                texts(segments@) == parts,
                dot@ == "."@,
                dot_dot@ == ".."@,
                steps(components@) == head + segment_steps(parts.take(i as int)),
            decreases segments.len() - i,
        {
            let segment: &String = &segments[i];
            let ghost before = components@;
            proof {
                assert(parts[i as int] == segment@);
                assert(parts.take(i + 1).drop_last() =~= parts.take(i as int));
                assert(parts.take(i + 1).last() == segment@);
            }
            if segment.as_str().is_empty() || *segment == dot {
            } else if *segment == dot_dot {
                components.push(Component::ParentDir);
                assert(steps(components@) =~= head + segment_steps(parts.take(i + 1))) by {
                    lemma_steps_push(before, Component::ParentDir);
                }
            } else {
                let component: Component = Component::Normal(segment.clone());
                components.push(component);
                assert(steps(components@) =~= head + segment_steps(parts.take(i + 1))) by {
                    lemma_steps_push(before, component);
                }
            }
            i += 1;
        }
        assert(parts.take(i as int) =~= parts);
        assert(head =~= (if "/"@.is_prefix_of(s@) {
            seq![Step::Root]
        } else if parts[0] == "."@ {
            seq![Step::Current]
        } else {
            seq![]
        }));
        FilePath { components }
    }

    /// Copies the path.
    pub fn copy(&self) -> (r: FilePath)
        ensures
            r@ == self@,
    {
        let mut components: Vec<Component> = Vec::new();
        copy_range(&self.components, 0, self.components.len(), &mut components);
        assert(self@.subrange(0, self@.len() as int) =~= self@);
        assert(steps(components@) =~= self@);
        FilePath { components }
    }

    /// Reports whether the path starts at the root directory.
    pub fn is_absolute(&self) -> (r: bool)
        ensures
            r == absolute(self@),
    {
        if self.components.len() == 0 {
            return false;
        }
        assert(self@[0] == self.components@[0]@);
        match self.components[0] {
            Component::RootDir => true,
            _ => false,
        }
    }

    /// Returns the path without its last component.
    pub fn parent(&self) -> (r: Option<FilePath>)
        ensures
            match r {
                Some(p) => parent_of(self@) == Some(p@),
                None => parent_of(self@) is None,
            },
    {
        let n: usize = self.components.len();
        if n == 0 {
            return None;
        }
        assert(self@.last() == self.components@[n - 1]@);
        match self.components[n - 1] {
            Component::RootDir => None,
            _ => {
                let mut components: Vec<Component> = Vec::new();
                copy_range(&self.components, 0, n - 1, &mut components);
                assert(self@.subrange(0, n - 1) =~= self@.drop_last());
                assert(steps(components@) =~= self@.drop_last());
                Some(FilePath { components })
            },
        }
    }

    /// Returns the last component, where it is a name in UTF-8.
    pub fn file_name(&self) -> (r: Option<String>)
        ensures
            match r {
                Some(name) => last_name(self@) == Some(name@),
                None => last_name(self@) is None,
            },
    {
        let n: usize = self.components.len();
        if n == 0 {
            return None;
        }
        assert(self@.last() == self.components@[n - 1]@);
        match &self.components[n - 1] {
            Component::Normal(name) => Some(name.clone()),
            _ => None,
        }
    }

    /// Returns `rest` as seen from this path.
    pub fn join(&self, rest: &FilePath) -> (r: FilePath)
        ensures
            r@ == joined(self@, rest@),
    {
        if rest.is_absolute() {
            return rest.copy();
        }
        let mut from: usize = 0;
        if self.components.len() > 0 && rest.components.len() > 0 {
            assert(rest@[0] == rest.components@[0]@);
            match rest.components[0] {
                Component::CurDir => {
                    from = 1;
                },
                _ => {},
            }
        }
        let mut components: Vec<Component> = Vec::new();
        copy_range(&self.components, 0, self.components.len(), &mut components);
        copy_range(&rest.components, from, rest.components.len(), &mut components);
        proof {
            assert(self@.subrange(0, self@.len() as int) =~= self@);
            if from == 0 {
                assert(rest@.subrange(0, rest@.len() as int) =~= rest@);
            } else {
                assert(rest@.subrange(1, rest@.len() as int) =~= rest@.drop_first());
            }
            assert(steps(components@) =~= joined(self@, rest@));
        }
        FilePath { components }
    }

    /// Reports whether the path is `base` or lies below it.
    pub fn starts_with(&self, base: &FilePath) -> (r: bool)
        ensures
            r == base@.is_prefix_of(self@),
    {
        if base.components.len() > self.components.len() {
            return false;
        }
        let mut i: usize = 0;
        while i < base.components.len()
            invariant
                i <= base.components.len() <= self.components.len(),
                forall|j: int| 0 <= j < i ==> #[trigger] self@[j] == base@[j],
            decreases base.components.len() - i,
        {
            assert(self@[i as int] == self.components@[i as int]@);
            assert(base@[i as int] == base.components@[i as int]@);
            if !self.components[i].same(&base.components[i]) {
                assert(self@.subrange(0, base@.len() as int)[i as int] != base@[i as int]);
                return false;
            }
            i += 1;
        }
        assert(self@.subrange(0, base@.len() as int) =~= base@);
        true
    }

    /// Reports whether two paths have the same components.
    pub fn same(&self, other: &FilePath) -> (r: bool)
        ensures
            r == (self@ == other@),
    {
        if self.components.len() != other.components.len() {
            return false;
        }
        let r: bool = self.starts_with(other);
        assert(self@.subrange(0, other@.len() as int) =~= self@);
        r
    }
}

/// Reports whether `list` holds a path with the components of `path`.
pub fn contains_path(list: &Vec<FilePath>, path: &FilePath) -> (r: bool)
    ensures
        r == paths(list@).contains(path@),
{
    let mut i: usize = 0;
    while i < list.len()
        invariant
            i <= list.len(),
            forall|j: int| 0 <= j < i ==> (#[trigger] list@[j])@ != path@,
        decreases list.len() - i,
    {
        if list[i].same(path) {
            assert(paths(list@)[i as int] == path@);
            return true;
        }
        i += 1;
    }
    false
}

/// What each path stands for, in order.
pub open spec fn paths(list: Seq<FilePath>) -> Seq<Seq<Step>> {
    list.map_values(|p: FilePath| p@)
}

/// Appends copies of the components from `from` up to `to`.
fn copy_range(components: &Vec<Component>, from: usize, to: usize, out: &mut Vec<Component>)
    requires
        from <= to <= components.len(),
    ensures
        steps(final(out)@) == steps(old(out)@) + steps(components@).subrange(
            from as int,
            to as int,
        ),
{
    let ghost start = steps(out@);
    let ghost all = steps(components@);
    let mut i: usize = from;
    assert(start + all.subrange(from as int, from as int) =~= start);
    while i < to
        invariant
            from <= i <= to <= components.len(),
            all == steps(components@),
            steps(out@) == start + all.subrange(from as int, i as int),
        decreases to - i,
    {
        let ghost before = out@;
        let component: Component = components[i].copy();
        out.push(component);
        proof {
            lemma_steps_push(before, component);
            assert(all[i as int] == component@);
            assert(steps(out@) =~= start + all.subrange(from as int, i + 1));
        }
        i += 1;
    }
}

/// Normalizes a path without touching the file system: `.` is left out, `..`
/// takes back the name before it, and what is left of nothing is `.`.
pub fn clean_path(path: &FilePath) -> (r: FilePath)
    ensures
        r@ == cleaned(path@),
{
    let mut out: Vec<Component> = Vec::new();
    let mut i: usize = 0;
    assert(walked(path@.take(0)) =~= steps(out@));
    while i < path.components.len()
        invariant
            i <= path.components.len(),
            steps(out@) == walked(path@.take(i as int)),
        decreases path.components.len() - i,
    {
        let ghost before = out@;
        let component: Component = path.components[i].copy();
        let n: usize = out.len();
        proof {
            assert(path@[i as int] == component@);
            assert(path@.take(i + 1) =~= path@.take(i as int).push(component@));
            lemma_walked_push(path@.take(i as int), component@);
            lemma_steps_push(before, component);
            if n > 0 {
                assert(steps(before).last() == before[n - 1]@);
                assert(steps(before.drop_last()) =~= steps(before).drop_last());
            }
        }
        match component {
            Component::CurDir => {},
            Component::ParentDir => {
                if n == 0 {
                    out.push(Component::ParentDir);
                } else {
                    match out[n - 1] {
                        Component::Normal(_) | Component::Opaque(_) => {
                            let _ = out.pop();
                        },
                        Component::RootDir => {},
                        _ => out.push(Component::ParentDir),
                    }
                }
            },
            other => out.push(other),
        }
        i += 1;
    }
    assert(path@.take(i as int) =~= path@);
    if out.len() == 0 {
        out.push(Component::CurDir);
        assert(steps(out@) =~= seq![Step::Current]);
    }
    FilePath { components: out }
}

/// What is walked further depends only on where one has got to.
proof fn lemma_walked_continues(a: Seq<Step>, b: Seq<Step>, rest: Seq<Step>)
    requires
        walked(a) == walked(b),
    ensures
        walked(a + rest) == walked(b + rest),
    decreases rest.len(),
{
    if rest.len() == 0 {
        assert(a + rest =~= a);
        assert(b + rest =~= b);
    } else {
        let front = rest.drop_last();
        lemma_walked_continues(a, b, front);
        assert((a + rest).drop_last() =~= a + front);
        assert((b + rest).drop_last() =~= b + front);
    }
}

/// `..` takes back the one name before it and nothing else, wherever in a path
/// the two stand.
pub proof fn law_parent_takes_one_name_back(before: Seq<Step>, name: Step, after: Seq<Step>)
    requires
        name is Name || name is Raw,
    ensures
        cleaned(before + seq![name, Step::Parent] + after) == cleaned(before + after),
        walked(before.push(name).push(Step::Parent)) == walked(before),
{
    let longer = before.push(name).push(Step::Parent);
    lemma_walked_push(before, name);
    lemma_walked_push(before.push(name), Step::Parent);
    assert(walked(before).push(name).drop_last() =~= walked(before));
    assert(before + seq![name, Step::Parent] =~= longer);
    lemma_walked_continues(longer, before, after);
}

/// `.` adds nothing, wherever in a path it stands.
pub proof fn law_current_adds_nothing(before: Seq<Step>, after: Seq<Step>)
    ensures
        cleaned(before + seq![Step::Current] + after) == cleaned(before + after),
{
    lemma_walked_push(before, Step::Current);
    assert(before + seq![Step::Current] =~= before.push(Step::Current));
    lemma_walked_continues(before.push(Step::Current), before, after);
}

/// The root directory is its own parent.
pub proof fn law_root_has_no_parent(after: Seq<Step>)
    ensures
        cleaned(seq![Step::Root, Step::Parent] + after) == cleaned(seq![Step::Root] + after),
{
    let none = Seq::<Step>::empty();
    let root = seq![Step::Root];
    assert(root =~= none.push(Step::Root));
    lemma_walked_push(none, Step::Root);
    assert(walked(root) =~= root);
    lemma_walked_push(root, Step::Parent);
    assert(root.push(Step::Parent) =~= seq![Step::Root, Step::Parent]);
    lemma_walked_continues(seq![Step::Root, Step::Parent], root, after);
}

/// A path with nothing to leave out stays as it is: at most one `/`, in front,
/// no `.`, and `..` only where nothing but `..` comes before it. And a path that
/// leads nowhere is `.`.
pub proof fn law_short_paths_stay(path: Seq<Step>)
    requires
        forall|i: int| 0 <= i < path.len() ==> !((#[trigger] path[i]) is Current),
        forall|i: int| 0 < i < path.len() ==> !((#[trigger] path[i]) is Root),
        forall|i: int, j: int|
            0 <= i < j < path.len() && (#[trigger] path[j]) is Parent ==> (#[trigger] path[
                i]) is Parent,
    ensures
        path.len() > 0 ==> cleaned(path) == path,
        path.len() == 0 ==> cleaned(path) == seq![Step::Current],
{
    lemma_walked_fixed(path);
}

/// Names that a path goes on with are kept, all of them and in order.
pub proof fn law_names_are_kept(path: Seq<Step>, names: Seq<Step>)
    requires
        forall|i: int| 0 <= i < names.len() ==> (#[trigger] names[i]) is Name || names[i] is Raw,
    ensures
        walked(path + names) == walked(path) + names,
        names.len() > 0 ==> cleaned(path + names) == walked(path) + names,
    decreases names.len(),
{
    if names.len() == 0 {
        assert(path + names =~= path);
        assert(walked(path) + names =~= walked(path));
    } else {
        let front = names.drop_last();
        assert forall|i: int| 0 <= i < front.len() implies (#[trigger] front[i]) is Name
            || front[i] is Raw by {
            assert(front[i] == names[i]);
        }
        law_names_are_kept(path, front);
        assert((path + names).drop_last() =~= path + front);
        assert((path + names).last() == names[names.len() - 1]);
        assert(walked(path + names) =~= walked(path) + names);
    }
}

/// An absolute path means the same in every directory, and a relative one is
/// read behind the directory's own.
pub proof fn law_resolving(cwd: Seq<Step>, path: Seq<Step>)
    ensures
        path.len() > 0 && path[0] is Root ==> resolved(cwd, path) == cleaned(path),
        path.len() == 0 || !(path[0] is Root) ==> resolved(cwd, path) == cleaned(cwd + path),
{
    law_joining(cwd, path);
}

/// What is joined to a directory lies behind it, unless it is absolute.
pub proof fn law_joining(base: Seq<Step>, rest: Seq<Step>)
    ensures
        rest.len() > 0 && rest[0] is Root ==> joined(base, rest) == rest,
        rest.len() == 0 || !(rest[0] is Root) ==> cleaned(joined(base, rest)) == cleaned(
            base + rest,
        ),
        rest.len() == 0 || !(rest[0] is Root || rest[0] is Current) ==> joined(base, rest) == base
            + rest,
        base.len() > 0 ==> joined(base, seq![Step::Current] + rest) == base + rest,
        base.len() == 0 ==> joined(base, rest) == rest,
{
    if rest.len() > 0 && rest[0] is Current {
        let tail = rest.drop_first();
        law_current_adds_nothing(base, tail);
        assert(base + seq![Step::Current] + tail =~= base + rest);
    }
    assert((seq![Step::Current] + rest).drop_first() =~= rest);
    if base.len() == 0 {
        assert(base + rest =~= rest);
    }
}

/// A path without its last step is its parent, and the last step's name is the
/// path's. The root directory and the empty path have neither.
pub proof fn law_parent_and_name(path: Seq<Step>, last: Step)
    ensures
        last is Root ==> parent_of(path.push(last)) is None,
        !(last is Root) ==> parent_of(path.push(last)) == Some(path),
        last matches Step::Name(name) ==> last_name(path.push(last)) == Some(name),
        !(last is Name) ==> last_name(path.push(last)) is None,
        parent_of(Seq::empty()) is None,
        last_name(Seq::empty()) is None,
{
    assert(path.push(last).drop_last() =~= path);
}

/// A path of one segment: nothing, `.`, `..` or a name.
pub proof fn law_single_segment(segment: Seq<char>)
    requires
        forall|i: int| 0 <= i < segment.len() ==> #[trigger] segment[i] != '/',
    ensures
        path_steps(segment) == if segment.len() == 0 {
            seq![]
        } else if segment == seq!['.'] {
            seq![Step::Current]
        } else if segment == seq!['.', '.'] {
            seq![Step::Parent]
        } else {
            seq![Step::Name(segment)]
        },
{
    reveal_strlit(".");
    reveal_strlit("..");
    reveal_strlit("/");
    law_split_whole(segment, '/');
    let segments = split_by(segment, '/');
    assert("."@ =~= seq!['.']);
    assert(".."@ =~= seq!['.', '.']);
    assert(segments.drop_last() =~= Seq::<Seq<char>>::empty());
    assert(segment_steps(segments.drop_last()) =~= Seq::<Step>::empty());
    assert(segments[0] == segment);
    if "/"@.is_prefix_of(segment) {
        assert(segment.subrange(0, 1)[0] == '/');
    }
    assert(path_steps(segment) =~= if segment.len() == 0 {
        seq![]
    } else if segment == seq!['.'] {
        seq![Step::Current]
    } else if segment == seq!['.', '.'] {
        seq![Step::Parent]
    } else {
        seq![Step::Name(segment)]
    });
}

/// A segment more goes one step further: up for `..`, nowhere for `.` and for
/// nothing, and else to the name. A path that begins with `/` begins at the
/// root directory.
pub proof fn law_further_segment(path: Seq<char>, segment: Seq<char>)
    requires
        forall|i: int| 0 <= i < segment.len() ==> #[trigger] segment[i] != '/',
    ensures
        path_steps(path + seq!['/'] + segment) == (if path.len() == 0 {
            seq![Step::Root]
        } else {
            path_steps(path)
        }) + (if segment.len() == 0 || segment == seq!['.'] {
            seq![]
        } else if segment == seq!['.', '.'] {
            seq![Step::Parent]
        } else {
            seq![Step::Name(segment)]
        }),
{
    reveal_strlit(".");
    reveal_strlit("..");
    reveal_strlit("/");
    let s = path + seq!['/'] + segment;
    law_split_whole(segment, '/');
    law_split_parts(path, segment, '/');
    let heads = split_by(path, '/');
    let segments = split_by(s, '/');
    assert("."@ =~= seq!['.']);
    assert(".."@ =~= seq!['.', '.']);
    assert("/"@ =~= seq!['/']);
    assert(segments =~= heads.push(segment));
    assert(segments.drop_last() =~= heads);
    if path.len() == 0 {
        assert(s.subrange(0, 1) =~= "/"@);
        assert(path.len() == 0);
        law_split_whole(path, '/');
        assert(heads.drop_last() =~= Seq::<Seq<char>>::empty());
        assert(segment_steps(heads.drop_last()) =~= Seq::<Step>::empty());
        assert(segment_steps(heads) =~= Seq::<Step>::empty());
    } else {
        assert(s.subrange(0, 1) =~= path.subrange(0, 1));
        assert("/"@.is_prefix_of(s) == "/"@.is_prefix_of(path));
        assert(heads.len() > 0);
        assert(segments[0] == heads[0]);
    }
    assert(path_steps(s) =~= (if path.len() == 0 {
        seq![Step::Root]
    } else {
        path_steps(path)
    }) + (if segment.len() == 0 || segment == seq!['.'] {
        seq![]
    } else if segment == seq!['.', '.'] {
        seq![Step::Parent]
    } else {
        seq![Step::Name(segment)]
    }));
}

/// Components stand for the same exactly where they are of one kind and, where
/// they are names, have the same characters or bytes.
pub proof fn law_components_told_apart(a: Component, b: Component)
    ensures
        a@ == b@ <==> match (a, b) {
            (Component::RootDir, Component::RootDir) => true,
            (Component::CurDir, Component::CurDir) => true,
            (Component::ParentDir, Component::ParentDir) => true,
            (Component::Normal(x), Component::Normal(y)) => x@ == y@,
            (Component::Opaque(x), Component::Opaque(y)) => x@ == y@,
            _ => false,
        },
{
}

/// A path stands for what its components do, all of them and in order; and so do
/// paths in a list.
pub proof fn law_paths_in_order(path: FilePath, list: Seq<FilePath>)
    ensures
        path@.len() == path.components@.len(),
        forall|i: int|
            0 <= i < path.components@.len() ==> #[trigger] path@[i] == path.components@[i]@,
        paths(list).len() == list.len(),
        forall|i: int| 0 <= i < list.len() ==> #[trigger] paths(list)[i] == list[i]@,
{
}

} // verus!
