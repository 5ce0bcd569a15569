use vstd::prelude::*;
use vstd::set_lib::*;
use vstd::string::*;

use crate::table::{
    entries_of, group_keys, groups_in, ids_of, insert_entry, keys_unique, lemma_kind_keys,
    lemma_kinds_follow_table, lemma_resolved_targets, lemma_table_of, lists_groups_of,
    lists_targets_of, resolved_targets, table_of, targets_in,
};
use crate::walk::{children_of, has_parent, is_group_walk, parent_at, push_children, WalkStep};

verus! {

/// Where a group's path is rooted.
pub enum PBXSourceTree {
    /// `.`: no particular origin.
    NoTree,
    /// `<absolute>`
    Absolute,
    /// `<group>`: relative to the enclosing group.
    Group,
    /// `SOURCE_ROOT`
    SourceRoot,
    /// `BUILT_PRODUCTS_DIR`
    BuildProductsDir,
    /// `SDKROOT`
    SdkRoot,
    /// `DEVELOPER_DIR`
    DeveloperDir,
}

/// A folder-like node: an ordered list of child identifiers.
pub struct PBXGroup {
    pub name: Option<String>,
    pub path: Option<String>,
    /// References to file-element nodes (groups or file-like leaves).
    pub children: Vec<String>,
    pub source_tree: PBXSourceTree,
}

/// The name under which a source-tree origin is shown.
pub open spec fn source_tree_name(t: PBXSourceTree) -> Seq<char> {
    match t {
        PBXSourceTree::NoTree => "None"@,
        PBXSourceTree::Absolute => "Absolute"@,
        PBXSourceTree::Group => "Group"@,
        PBXSourceTree::SourceRoot => "SourceRoot"@,
        PBXSourceTree::BuildProductsDir => "BuildProductsDir"@,
        PBXSourceTree::SdkRoot => "SdkRoot"@,
        PBXSourceTree::DeveloperDir => "DeveloperDir"@,
    }
}

impl PBXSourceTree {
    /// The origin's name, as shown in a group's description.
    pub fn name(&self) -> (r: &'static str)
        ensures
            r@ == source_tree_name(*self),
    {
        match self {
            PBXSourceTree::NoTree => "None",
            PBXSourceTree::Absolute => "Absolute",
            PBXSourceTree::Group => "Group",
            PBXSourceTree::SourceRoot => "SourceRoot",
            PBXSourceTree::BuildProductsDir => "BuildProductsDir",
            PBXSourceTree::SdkRoot => "SdkRoot",
            PBXSourceTree::DeveloperDir => "DeveloperDir",
        }
    }
}

/// A labelled optional field of a group's description: the label, the value
/// and a space, or nothing where the field is absent.
pub open spec fn optional_field(label: Seq<char>, v: Option<String>) -> Seq<char> {
    match v {
        Some(x) => label + x@ + " "@,
        None => Seq::empty(),
    }
}

/// A group's one-line description:
/// `PBXGroup { name: N path: P sourceTree: T }`, leaving out an absent name
/// or path.
pub open spec fn group_text(g: PBXGroup) -> Seq<char> {
    "PBXGroup { "@ + optional_field("name: "@, g.name) + optional_field(
        "path: "@,
        g.path,
    )
        + "sourceTree: "@ + source_tree_name(g.source_tree) + " }"@
}

impl PBXGroup {
    /// The group's one-line description.
    pub fn to_string(&self) -> (r: String)
        ensures
            r@ == group_text(*self),
    {
        let mut r = String::from_str("PBXGroup { ");
        match &self.name {
            Some(name) => {
                r.append("name: ");
                r.append(name.as_str());
                r.append(" ");
            },
            None => {},
        }
        let ghost a = "PBXGroup { "@ + optional_field("name: "@, self.name);
        assert(r@ =~= a);
        match &self.path {
            Some(path) => {
                r.append("path: ");
                r.append(path.as_str());
                r.append(" ");
            },
            None => {},
        }
        let ghost b = a + optional_field("path: "@, self.path);
        assert(r@ =~= b);
        r.append("sourceTree: ");
        r.append(self.source_tree.name());
        r.append(" }");
        assert(r@ =~= group_text(*self));
        r
    }
}

/// A buildable product.
pub struct PBXNativeTarget {
    pub name: String,
    pub product_name: String,
    pub product_install_path: Option<String>,
    /// For instance `com.apple.product-type.application`.
    pub product_type: String,
}

/// The project node that the document's root identifier designates.
pub struct PBXProject {
    /// Reference to an `XCConfigurationList` node.
    pub build_configuration_list: String,
    pub compatibility_version: String,
    pub development_region: String,
    /// Whether file encodings have been scanned (0 or 1).
    pub has_scanned_for_encodings: usize,
    pub known_regions: Vec<String>,
    /// Reference to the top-level group.
    pub main_group: String,
    /// Reference to the group holding the products.
    pub product_ref_group: String,
    pub project_dir_path: String,
    pub project_root: String,
    /// References to the project's targets.
    pub targets: Vec<String>,
}

/// One node of the object table, tagged by its `isa` discriminator.
pub enum PBXObject {
    PBXBuildFile { file_ref: String },
    PBXContainerItemProxy,
    PBXBuildPhase,
    PBXAppleScriptBuildPhase,
    PBXCopyFilesBuildPhase,
    PBXFrameworksBuildPhase,
    PBXHeadersBuildPhase,
    PBXResourcesBuildPhase,
    PBXShellScriptBuildPhase,
    PBXSourcesBuildPhase,
    PBXFileElement,
    PBXFileReference,
    PBXGroup(PBXGroup),
    PBXVariantGroup,
    PBXAggregateTarget,
    PBXLegacyTarget,
    PBXNativeTarget(PBXNativeTarget),
    PBXProject(PBXProject),
    PBXTargetDependency,
    XCBuildConfiguration,
    XCConfigurationList,
}

/// A decoded project document.
pub struct PBXProj {
    pub archive_version: usize,
    pub object_version: usize,
    /// Identifier of the root project node.
    root_object: String,
    objects: Vec<(String, PBXObject)>,
}

impl PBXProj {
    /// The table's entries, in table order.
    pub closed spec fn entries(&self) -> Seq<(Seq<char>, PBXObject)> {
        entries_of(self.objects@)
    }

    /// The node table: identifier to node.
    pub open spec fn table(&self) -> Map<Seq<char>, PBXObject> {
        table_of(self.entries())
    }

    /// The identifier of the root project node.
    pub closed spec fn root_id(&self) -> Seq<char> {
        self.root_object@
    }

    /// A document with root identifier `root_object` whose table is built from
    /// `objects` in order: where a key occurs twice, the later node is kept.
    pub fn new(
        archive_version: usize,
        object_version: usize,
        root_object: String,
        objects: Vec<(String, PBXObject)>,
    ) -> (r: Self)
        ensures
            r.versions() == (archive_version, object_version),
            r.root_id() == root_object@,
            r.table() == table_of(entries_of(objects@)),
            r.well_formed(),
    {
        let ghost orig = objects@;
        let mut objects = objects;
        let mut rev: Vec<(String, PBXObject)> = Vec::new();
        while objects.len() > 0
            invariant
                objects@ == orig.take(objects.len() as int),
                rev.len() + objects.len() == orig.len(),
                forall|j: int| 0 <= j < rev.len() ==> rev@[j] == orig[orig.len() - 1 - j],
            decreases objects.len(),
        {
            let e = objects.pop().unwrap();
            rev.push(e);
            assert(objects@ =~= orig.take(objects.len() as int));
        }
        let mut table: Vec<(String, PBXObject)> = Vec::new();
        proof {
            assert(entries_of(table@) =~= Seq::<(Seq<char>, PBXObject)>::empty());
            assert(entries_of(orig).take(0) =~= Seq::<(Seq<char>, PBXObject)>::empty());
        }
        while rev.len() > 0
            invariant
                rev.len() <= orig.len(),
                forall|j: int| 0 <= j < rev.len() ==> rev@[j] == orig[orig.len() - 1 - j],
                keys_unique(entries_of(table@)),
                table_of(entries_of(table@)) == table_of(
                    entries_of(orig).take(orig.len() - rev.len()),
                ),
            decreases rev.len(),
        {
            let ghost c = orig.len() - rev.len();
            let e = rev.pop().unwrap();
            insert_entry(&mut table, e.0, e.1);
            proof {
                let es = entries_of(orig);
                assert(es.take(c + 1).drop_last() =~= es.take(c));
                assert(es.take(c + 1).last() == es[c]);
            }
        }
        assert(entries_of(orig).take(orig.len() as int) =~= entries_of(orig));
        PBXProj { archive_version, object_version, root_object, objects: table }
    }

    /// The node stored under `id`; `None` where the table has no such key.
    pub fn get(&self, id: &str) -> (r: Option<&PBXObject>)
        ensures
            r.is_some() == self.table().contains_key(id@),
            r matches Some(o) ==> *o == self.table()[id@],
    {
        let key = id.to_owned();
        let mut i: usize = 0;
        while i < self.objects.len()
            invariant
                key@ == id@,
                i <= self.objects.len(),
                forall|j: int| 0 <= j < i ==> self.entries()[j].0 != id@,
            decreases self.objects.len() - i,
        {
            if self.objects[i].0 == key {
                proof {
                    use_type_invariant(self);
                    lemma_table_of(self.entries());
                }
                assert(self.entries()[i as int] == (
                self.objects@[i as int].0@,
                self.objects@[i as int].1,
                ));
                assert(self.table()[self.entries()[i as int].0] == self.entries()[i as int].1);
                return Some(&self.objects[i].1);
            }
            i = i + 1;
        }
        proof {
            use_type_invariant(self);
            lemma_table_of(self.entries());
        }
        None
    }

    /// The root project: the node under the root identifier, where there is
    /// one and it is a project.
    pub fn root_project(&self) -> (r: Option<&PBXProject>)
        ensures
            r.is_some() == (self.table().contains_key(self.root_id()) && self.table()[self.root_id()] is PBXProject),
            r matches Some(p) ==> self.table()[self.root_id()] == PBXObject::PBXProject(*p),
    {
        match self.get(self.root_object.as_str()) {
            Some(PBXObject::PBXProject(project)) => Some(project),
            _ => None,
        }
    }

    /// The group stored under `id`, where there is one.
    pub fn resolve_group(&self, id: &str) -> (r: Option<&PBXGroup>)
        ensures
            r.is_some() == (self.table().contains_key(id@) && self.table()[id@] is PBXGroup),
            r matches Some(g) ==> self.table()[id@] == PBXObject::PBXGroup(*g),
    {
        match self.get(id) {
            Some(PBXObject::PBXGroup(group)) => Some(group),
            _ => None,
        }
    }

    /// Every group of the table, in table order.
    pub fn groups(&self) -> (r: Vec<&PBXGroup>)
        ensures
            self.well_formed(),
            r.len() == groups_in(self.entries()).len(),
            forall|i: int| 0 <= i < r.len() ==> *r[i] == groups_in(self.entries())[i],
            lists_groups_of(self.table(), groups_in(self.entries())),
    {
        proof {
            use_type_invariant(self);
            lemma_kind_keys(self.entries());
        }
        let ghost e = self.entries();
        let mut r: Vec<&PBXGroup> = Vec::new();
        let n = self.objects.len();
        let mut i: usize = 0;
        while i < n
            invariant
                n == self.objects.len(),
                e == self.entries(),
                i <= n,
                r.len() == groups_in(e.take(i as int)).len(),
                forall|j: int| 0 <= j < r.len() ==> *r[j] == groups_in(e.take(i as int))[j],
            decreases n - i,
        {
            proof {
                assert(e.take(i + 1).drop_last() =~= e.take(i as int));
                assert(e.take(i + 1).last() == e[i as int]);
            }
            match &self.objects[i].1 {
                PBXObject::PBXGroup(group) => {
                    r.push(group);
                },
                _ => {},
            }
            i = i + 1;
        }
        assert(e.take(n as int) =~= e);
        r
    }

    /// Every native target of the table, in table order; not only those that
    /// the root project lists.
    pub fn targets(&self) -> (r: Vec<&PBXNativeTarget>)
        ensures
            self.well_formed(),
            r.len() == targets_in(self.entries()).len(),
            forall|i: int| 0 <= i < r.len() ==> *r[i] == targets_in(self.entries())[i],
            lists_targets_of(self.table(), targets_in(self.entries())),
    {
        proof {
            use_type_invariant(self);
            lemma_kind_keys(self.entries());
        }
        let ghost e = self.entries();
        let mut r: Vec<&PBXNativeTarget> = Vec::new();
        let n = self.objects.len();
        let mut i: usize = 0;
        while i < n
            invariant
                n == self.objects.len(),
                e == self.entries(),
                i <= n,
                r.len() == targets_in(e.take(i as int)).len(),
                forall|j: int| 0 <= j < r.len() ==> *r[j] == targets_in(e.take(i as int))[j],
            decreases n - i,
        {
            proof {
                assert(e.take(i + 1).drop_last() =~= e.take(i as int));
                assert(e.take(i + 1).last() == e[i as int]);
            }
            match &self.objects[i].1 {
                PBXObject::PBXNativeTarget(target) => {
                    r.push(target);
                },
                _ => {},
            }
            i = i + 1;
        }
        assert(e.take(n as int) =~= e);
        r
    }

    /// The native targets that the root project lists, in its order; empty
    /// where there is no root project.
    pub fn project_targets(&self) -> (r: Vec<&PBXNativeTarget>)
        ensures
            self.well_formed(),
            self.table().contains_key(self.root_id()) ==> (self.table()[self.root_id()] matches PBXObject::PBXProject(p) ==> r.len() == resolved_targets(ids_of(p.targets@), self.table()).len() && forall|i: int| 0 <= i < r.len() ==> *r[i] == resolved_targets(ids_of(p.targets@), self.table())[i]),
            !(self.table().contains_key(self.root_id()) && self.table()[self.root_id()] is PBXProject) ==> r.len() == 0,
    {
        proof {
            use_type_invariant(self);
        }
        let mut r: Vec<&PBXNativeTarget> = Vec::new();
        match self.root_project() {
            Some(project) => {
                let ghost ids = ids_of(project.targets@);
                let n = project.targets.len();
                let mut i: usize = 0;
                while i < n
                    invariant
                        n == project.targets.len(),
                        ids == ids_of(project.targets@),
                        i <= n,
                        r.len() == resolved_targets(ids.take(i as int), self.table()).len(),
                        forall|j: int| 0 <= j < r.len() ==> *r[j] == resolved_targets(ids.take(i as int), self.table())[j],
                    decreases n - i,
                {
                    proof {
                        assert(ids.take(i + 1).drop_last() =~= ids.take(i as int));
                        assert(ids.take(i + 1).last() == ids[i as int]);
                    }
                    match self.get(project.targets[i].as_str()) {
                        Some(PBXObject::PBXNativeTarget(target)) => {
                            r.push(target);
                        },
                        _ => {},
                    }
                    i = i + 1;
                }
                assert(ids.take(n as int) =~= ids);
            },
            None => {},
        }
        r
    }

    /// `groups()` depends on the table alone, not on its order: it holds one
    /// group for each key whose node is a group, and a group occurs in it
    /// exactly when some key holds it.
    pub proof fn lemma_groups_are_table_groups(p: &PBXProj)
        requires
            p.well_formed(),
        ensures
            groups_in(p.entries()).len() == group_keys(p.table()).len(),
            forall|g: PBXGroup|
                groups_in(p.entries()).contains(g) <==> exists|k: Seq<char>|
                    p.table().contains_key(k) && #[trigger] p.table()[k] == PBXObject::PBXGroup(g),
    {
        lemma_kinds_follow_table(p.entries());
    }

    /// `project_targets()` is `targets()` intersected with the root project's
    /// list: a target is in it exactly when it is among the table's targets
    /// and an identifier that the root project lists holds it.
    pub proof fn lemma_project_targets_within_targets(p: &PBXProj)
        requires
            p.well_formed(),
            p.table().contains_key(p.root_id()),
            p.table()[p.root_id()] is PBXProject,
        ensures
            ({
                let ids = ids_of(p.table()[p.root_id()]->PBXProject_0.targets@);
                forall|t: PBXNativeTarget|
                    resolved_targets(ids, p.table()).contains(t) <==> (targets_in(
                        p.entries(),
                    ).contains(t) && exists|i: int|
                        0 <= i < ids.len() && p.table().contains_key(ids[i]) && #[trigger] p.table()[ids[i]]
                            == PBXObject::PBXNativeTarget(t))
            }),
    {
        let ids = ids_of(p.table()[p.root_id()]->PBXProject_0.targets@);
        lemma_kinds_follow_table(p.entries());
        lemma_resolved_targets(ids, p.table());
        assert forall|t: PBXNativeTarget|
            resolved_targets(ids, p.table()).contains(t) implies targets_in(p.entries()).contains(t) by {
            let i = choose|i: int|
                0 <= i < ids.len() && p.table().contains_key(ids[i]) && #[trigger] p.table()[ids[i]]
                    == PBXObject::PBXNativeTarget(t);
            assert(p.table()[ids[i]] == PBXObject::PBXNativeTarget(t));
        }
    }

    /// The index of the entry stored under `id`, where there is one.
    fn position(&self, id: &String) -> (r: Option<usize>)
        ensures
            r matches Some(k) ==> k < self.objects.len() && self.entries()[k as int].0 == id@,
            r is None ==> !self.table().contains_key(id@),
    {
        let mut i: usize = 0;
        while i < self.objects.len()
            invariant
                i <= self.objects.len(),
                forall|j: int| 0 <= j < i ==> self.entries()[j].0 != id@,
            decreases self.objects.len() - i,
        {
            if self.objects[i].0 == *id {
                return Some(i);
            }
            i = i + 1;
        }
        proof {
            use_type_invariant(self);
            lemma_table_of(self.entries());
        }
        None
    }

    /// Walks the group tree from `start` in pre-order, visiting each stored
    /// node once: a group's children follow it in their listed order, and an
    /// identifier seen before (a cycle, a shared child) or absent from the
    /// table is skipped.
    pub fn walk_from(&self, start: &str) -> (r: Vec<WalkStep>)
        ensures
            is_group_walk(self.table(), start@, r@),
    {
        proof {
            use_type_invariant(self);
            lemma_table_of(self.entries());
        }
        let ghost m = self.table();
        let ghost e = self.entries();
        let n = self.objects.len();
        let mut visited: Vec<bool> = Vec::new();
        while visited.len() < n
            invariant
                visited.len() <= n,
                forall|k: int| 0 <= k < visited.len() ==> !visited@[k],
            decreases n - visited.len(),
        {
            visited.push(false);
        }
        let mut out: Vec<WalkStep> = Vec::new();
        let mut stack: Vec<(usize, String)> = Vec::new();
        stack.push((0, start.to_owned()));
        let ghost mut parents: Seq<int> = seq![0];
        let ghost mut vis: Set<int> = Set::empty();
        while stack.len() > 0
            invariant
                n == self.objects.len(),
                m == self.table(),
                e == self.entries(),
                keys_unique(e),
                forall|k: Seq<char>| m.contains_key(k) <==> exists|i: int| 0 <= i < e.len() && e[i].0 == k,
                forall|i: int| 0 <= i < e.len() ==> #[trigger] m[e[i].0] == e[i].1,
                visited.len() == n,
                vis.finite(),
                forall|k: int| vis.contains(k) ==> 0 <= k < n,
                forall|k: int| 0 <= k < n ==> (visited@[k] <==> vis.contains(k)),
                forall|k: int| 0 <= k < n ==> (visited@[k] <==> exists|j: int| 0 <= j < out.len() && out@[j].id@ == e[k].0),
                forall|j: int| 0 <= j < out.len() ==> m.contains_key(#[trigger] out@[j].id@),
                forall|i: int, j: int| 0 <= i < out.len() && 0 <= j < out.len() && i != j ==> out@[i].id@ != out@[j].id@,
                out.len() > 0 ==> out@[0].id@ == start@ && out@[0].depth == 0,
                forall|j: int| 0 < j < out.len() ==> #[trigger] has_parent(m, out@, j),
                out.len() == 0 ==> (stack.len() == 1 && stack@[0].0 == 0 && stack@[0].1@ == start@)
                    || (stack.len() == 0 && !m.contains_key(start@)),
                parents.len() == stack.len(),
                out.len() > 0 ==> forall|i: int| 0 <= i < stack.len() ==> {
                    let p = #[trigger] parents[i];
                    &&& 0 <= p < out.len()
                    &&& out@[p].depth + 1 == stack@[i].0
                    &&& m[out@[p].id@] is PBXGroup
                    &&& children_of(m, out@[p].id@).contains(stack@[i].1@)
                    &&& forall|q: int| p < q < out.len() ==> out@[q].depth >= stack@[i].0
                },
                forall|i: int| 0 <= i < stack.len() ==> stack@[i].0 <= vis.len(),
                forall|i: int, j: int| 0 <= i < j < stack.len() ==> stack@[i].0 <= stack@[j].0,
                forall|j: int, c: Seq<char>|
                    0 <= j < out.len() && m[out@[j].id@] is PBXGroup && #[trigger] children_of(m, out@[j].id@).contains(c)
                        && m.contains_key(c) ==> (exists|q: int| 0 <= q < out.len() && #[trigger] out@[q].id@ == c)
                        || (exists|i: int| 0 <= i < stack.len() && #[trigger] stack@[i].1@ == c),
            decreases n - vis.len(), stack.len(),
        {
            let ghost vis0 = vis;
            let ghost out0 = out@;
            let ghost s0 = stack@;
            let ghost par0 = parents;
            let top = stack.pop().unwrap();
            let (depth, id) = top;
            proof {
                parents = parents.drop_last();
                assert(stack@ =~= s0.drop_last());
            }
            match self.position(&id) {
                None => {
                    proof {
                        assert forall|j: int, c: Seq<char>|
                            0 <= j < out.len() && m[out@[j].id@] is PBXGroup && #[trigger] children_of(m, out@[j].id@).contains(c)
                                && m.contains_key(c) implies (exists|q: int| 0 <= q < out.len() && #[trigger] out@[q].id@ == c)
                                || (exists|i: int| 0 <= i < stack.len() && #[trigger] stack@[i].1@ == c) by {
                            if !exists|q: int| 0 <= q < out.len() && #[trigger] out@[q].id@ == c {
                                let i = choose|i: int| 0 <= i < s0.len() && #[trigger] s0[i].1@ == c;
                                assert(i != s0.len() - 1);
                                assert(stack@[i] == s0[i]);
                            }
                        }
                    }
                },
                Some(k) => {
                    if visited[k] {
                        proof {
                            let ki = k as int;
                            assert forall|j: int, c: Seq<char>|
                                0 <= j < out.len() && m[out@[j].id@] is PBXGroup && #[trigger] children_of(m, out@[j].id@).contains(c)
                                    && m.contains_key(c) implies (exists|q: int| 0 <= q < out.len() && #[trigger] out@[q].id@ == c)
                                    || (exists|i: int| 0 <= i < stack.len() && #[trigger] stack@[i].1@ == c) by {
                                if !exists|q: int| 0 <= q < out.len() && #[trigger] out@[q].id@ == c {
                                    let i = choose|i: int| 0 <= i < s0.len() && #[trigger] s0[i].1@ == c;
                                    if i == s0.len() - 1 {
                                        assert(visited@[ki]);
                                        let q = choose|q: int| 0 <= q < out.len() && out@[q].id@ == e[ki].0;
                                        assert(out@[q].id@ == c);
                                    }
                                    assert(stack@[i] == s0[i]);
                                }
                            }
                        }
                    } else {
                        let ghost ki = k as int;
                        visited.set(k, true);
                        proof {
                            vis = vis.insert(ki);
                            lemma_int_range(0, n as int);
                            lemma_len_subset(vis, set_int_range(0, n as int));
                            assert(!vis0.contains(ki));
                            assert(vis.len() == vis0.len() + 1);
                            assert(s0[s0.len() - 1] == top);
                        }
                        let ghost l0 = out.len() as int;
                        let ghost pp = par0.last();
                        let ghost new_id = id@;
                        out.push(WalkStep { depth, id });
                        proof {
                            assert(out@ == out0.push(WalkStep { depth, id: out@[l0].id }));
                            assert(out@[l0].id@ == e[ki].0);
                            assert(forall|x: int| 0 <= x < l0 ==> out@[x] == out0[x]);
                        }
                        match &self.objects[k].1 {
                            PBXObject::PBXGroup(group) => {
                                push_children(&mut stack, &group.children, depth + 1);
                                proof {
                                    parents = parents + Seq::new(group.children.len() as nat, |i: int| l0);
                                }
                            },
                            _ => {},
                        }
                        proof {
                            let base = s0.len() - 1;
                            let grp = e[ki].1 is PBXGroup;
                            let kids = if grp { e[ki].1->PBXGroup_0.children@ } else { Seq::<String>::empty() };
                            assert(self.objects@[ki].1 == e[ki].1);
                            assert(m[e[ki].0] == e[ki].1);
                            assert(new_id == e[ki].0);
                            assert(s0[base] == top);
                            assert(par0[base] == pp);
                            assert(stack@.len() == base + kids.len());
                            assert(forall|i: int| 0 <= i < base ==> stack@[i] == s0[i]);
                            assert(forall|i: int| 0 <= i < base ==> parents[i] == par0[i]);
                            assert(forall|i: int| base <= i < stack@.len() ==> parents[i] == l0);
                            assert forall|i: int| 0 <= i < kids.len() implies #[trigger] stack@[base + i] == (
                                (depth + 1) as usize,
                                kids[kids.len() - 1 - i],
                            ) by {
                                assert(stack@[base + i] == stack@[base + i]);
                            }
                            assert forall|x: int| 0 <= x < n implies (visited@[x] <==> exists|j: int|
                                0 <= j < out.len() && out@[j].id@ == e[x].0) by {
                                if x == ki {
                                    assert(out@[l0].id@ == e[x].0);
                                } else {
                                    if exists|j: int| 0 <= j < out.len() && out@[j].id@ == e[x].0 {
                                        let j = choose|j: int| 0 <= j < out.len() && out@[j].id@ == e[x].0;
                                        if j == l0 {
                                            assert(e[x].0 == e[ki].0);
                                        } else {
                                            assert(out0[j].id@ == e[x].0);
                                        }
                                    }
                                    if visited@[x] {
                                        let j = choose|j: int| 0 <= j < out0.len() && out0[j].id@ == e[x].0;
                                        assert(out@[j].id@ == e[x].0);
                                    }
                                }
                            }
                            assert forall|j: int| 0 <= j < out0.len() implies out0[j].id@ != new_id by {
                                if out0[j].id@ == new_id {
                                    assert(visited@[ki]);
                                }
                            }
                            assert forall|j: int| 0 < j < out.len() implies #[trigger] has_parent(m, out@, j) by {
                                if j < l0 {
                                    assert(has_parent(m, out0, j));
                                    let p = choose|p: int| #[trigger] parent_at(m, out0, j, p);
                                    assert(parent_at(m, out@, j, p));
                                } else {
                                    assert(parent_at(m, out@, j, pp));
                                }
                            }
                            assert forall|i: int| 0 <= i < stack.len() implies {
                                let p = #[trigger] parents[i];
                                &&& 0 <= p < out.len()
                                &&& out@[p].depth + 1 == stack@[i].0
                                &&& m[out@[p].id@] is PBXGroup
                                &&& children_of(m, out@[p].id@).contains(stack@[i].1@)
                                &&& forall|q: int| p < q < out.len() ==> out@[q].depth >= stack@[i].0
                            } by {
                                if i < base {
                                    assert(stack@[i] == s0[i]);
                                    assert(s0[i].0 <= s0[base].0);
                                } else {
                                    let t = i - base;
                                    assert(stack@[base + t] == ((depth + 1) as usize, kids[kids.len() - 1 - t]));
                                    assert(children_of(m, out@[l0].id@) == ids_of(kids));
                                    assert(ids_of(kids)[kids.len() - 1 - t] == stack@[i].1@);
                                }
                            }
                            assert forall|i: int, j: int| 0 <= i < j < stack.len() implies stack@[i].0 <= stack@[j].0 by {
                                if i < base {
                                    assert(stack@[i] == s0[i]);
                                    assert(s0[i].0 <= s0[base].0);
                                    if j < base {
                                        assert(stack@[j] == s0[j]);
                                    } else {
                                        assert(stack@[base + (j - base)].0 == depth + 1);
                                    }
                                } else {
                                    assert(stack@[base + (i - base)].0 == depth + 1);
                                    assert(stack@[base + (j - base)].0 == depth + 1);
                                }
                            }
                            assert forall|i: int| 0 <= i < stack.len() implies stack@[i].0 <= vis.len() by {
                                if i < base {
                                    assert(stack@[i] == s0[i]);
                                } else {
                                    assert(stack@[base + (i - base)].0 == depth + 1);
                                }
                            }
                            assert forall|j: int, c: Seq<char>|
                                0 <= j < out.len() && m[out@[j].id@] is PBXGroup && #[trigger] children_of(m, out@[j].id@).contains(c)
                                    && m.contains_key(c) implies (exists|q: int| 0 <= q < out.len() && #[trigger] out@[q].id@ == c)
                                    || (exists|i: int| 0 <= i < stack.len() && #[trigger] stack@[i].1@ == c) by {
                                if j == l0 {
                                    assert(children_of(m, out@[l0].id@) == ids_of(kids));
                                    let t = choose|t: int| 0 <= t < kids.len() && ids_of(kids)[t] == c;
                                    let u = kids.len() - 1 - t;
                                    assert(stack@[base + u] == ((depth + 1) as usize, kids[kids.len() - 1 - u]));
                                    assert(stack@[base + u].1@ == c);
                                } else {
                                    assert(out@[j] == out0[j]);
                                    if exists|q: int| 0 <= q < out0.len() && #[trigger] out0[q].id@ == c {
                                        let q = choose|q: int| 0 <= q < out0.len() && #[trigger] out0[q].id@ == c;
                                        assert(out@[q].id@ == c);
                                    } else {
                                        let i = choose|i: int| 0 <= i < s0.len() && #[trigger] s0[i].1@ == c;
                                        if i == base {
                                            assert(out@[l0].id@ == c);
                                        } else {
                                            assert(stack@[i] == s0[i]);
                                        }
                                    }
                                }
                            }
                        }
                    }
                },
            }
        }
        out
    }

    /// Walks the group tree from the root project's main group (see
    /// `walk_from`); empty where there is no root project.
    pub fn walk(&self) -> (r: Vec<WalkStep>)
        ensures
            (self.table().contains_key(self.root_id()) && self.table()[self.root_id()] is PBXProject)
                ==> is_group_walk(self.table(), self.table()[self.root_id()]->PBXProject_0.main_group@, r@),
            !(self.table().contains_key(self.root_id()) && self.table()[self.root_id()] is PBXProject)
                ==> r.len() == 0,
    {
        match self.root_project() {
            Some(project) => self.walk_from(project.main_group.as_str()),
            None => Vec::new(),
        }
    }

    /// The archive format version and the object-schema version.
    pub closed spec fn versions(&self) -> (usize, usize) {
        (self.archive_version, self.object_version)
    }

    /// Every key of the table occurs once among its entries; every document
    /// satisfies this.
    pub closed spec fn well_formed(&self) -> bool {
        keys_unique(self.entries())
    }

    #[verifier::type_invariant]
    spec fn inv(&self) -> bool {
        self.well_formed()
    }
}

} // verus!
