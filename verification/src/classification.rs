//! Classification engine: maps scanned paths to storage categories (with their
//! plain-English explanation: what it is, what happens if removed, whether it
//! regenerates) through a set of rules, the storage knowledge base.

use vstd::prelude::*;
use crate::model::{SafetyLevel, StorageCategoryDef};
use crate::path::FsPath;

verus! {

/// What a category definition says, as values.
pub struct CategoryView {
    pub id: Seq<char>,
    pub display_name: Seq<char>,
    pub description: Seq<char>,
    pub what_happens_if_removed: Seq<char>,
    pub regeneratable: bool,
    pub reversible: bool,
    pub safety: SafetyLevel,
}

/// The values a category definition holds.
pub open spec fn category_view(c: StorageCategoryDef) -> CategoryView {
    CategoryView {
        id: c.id@,
        display_name: c.display_name@,
        description: c.description@,
        what_happens_if_removed: c.what_happens_if_removed@,
        regeneratable: c.regeneratable,
        reversible: c.reversible,
        safety: c.safety,
    }
}

/// One entry of the knowledge base: which paths it recognises, and the
/// category it assigns them.
pub trait ClassificationRule {
    /// Whether the rule recognises `path`.
    spec fn recognises(&self, path: FsPath) -> bool;

    /// The category the rule assigns.
    spec fn definition(&self) -> CategoryView;

    fn matches(&self, path: &FsPath) -> (r: bool)
        ensures
            r == self.recognises(*path),
    ;

    fn category(&self) -> (c: StorageCategoryDef)
        ensures
            category_view(c) == self.definition(),
    ;
}

/// The rules, consulted in order.
pub struct ClassificationEngine {
    rules: Vec<Box<dyn ClassificationRule>>,
}

impl ClassificationEngine {
    /// The number of rules.
    pub closed spec fn rule_count(&self) -> nat {
        self.rules@.len()
    }

    /// Whether rule `i` recognises `path`.
    pub closed spec fn rule_matches(&self, i: int, path: FsPath) -> bool {
        self.rules@[i].recognises(path)
    }

    /// The category rule `i` assigns.
    pub closed spec fn rule_definition(&self, i: int) -> CategoryView {
        self.rules@[i].definition()
    }

    /// The category identifier rule `i` assigns.
    pub open spec fn rule_category_id(&self, i: int) -> Seq<char> {
        self.rule_definition(i).id
    }

    /// The display name of the category rule `i` assigns.
    pub open spec fn rule_category_name(&self, i: int) -> Seq<char> {
        self.rule_definition(i).display_name
    }

    /// The name the knowledge base shows for category `id`: the display name
    /// given by the first rule assigning `id`, or `id` itself when no rule does.
    pub open spec fn display_name_for(&self, id: Seq<char>) -> Seq<char> {
        if exists|i: int| #[trigger] self.first_with_id(i, id) {
            self.rule_category_name(choose|i: int| #[trigger] self.first_with_id(i, id))
        } else {
            id
        }
    }

    /// Only one rule is the first to assign an identifier.
    pub proof fn lemma_first_with_id_unique(&self, i: int, j: int, id: Seq<char>)
        requires
            self.first_with_id(i, id),
            self.first_with_id(j, id),
        ensures
            i == j,
    {
        if i < j {
            assert(self.rule_category_id(i) != id);
        } else if j < i {
            assert(self.rule_category_id(j) != id);
        }
    }

    /// Rule `i` is the first rule that recognises `path`.
    pub open spec fn first_match(&self, i: int, path: FsPath) -> bool {
        &&& 0 <= i < self.rule_count()
        &&& self.rule_matches(i, path)
        &&& forall|j: int| 0 <= j < i ==> !#[trigger] self.rule_matches(j, path)
    }

    /// Rule `i` is the first rule that assigns category `id`.
    pub open spec fn first_with_id(&self, i: int, id: Seq<char>) -> bool {
        &&& 0 <= i < self.rule_count()
        &&& self.rule_category_id(i) == id
        &&& forall|j: int| 0 <= j < i ==> #[trigger] self.rule_category_id(j) != id
    }

    /// An engine without rules.
    pub fn new() -> (e: ClassificationEngine)
        ensures
            e.rule_count() == 0,
    {
        ClassificationEngine { rules: Vec::new() }
    }

    /// The category of the first rule that recognises `path`.
    pub fn classify(&self, path: &FsPath) -> (r: Option<StorageCategoryDef>)
        ensures
            r is Some <==> exists|i: int| 0 <= i < self.rule_count() && #[trigger] self.rule_matches(i, *path),
            r matches Some(c) ==> exists|i: int| #[trigger] self.first_match(i, *path) && category_view(c) == self.rule_definition(i),
            self.rule_count() == 0 ==> r is None,
    {
        let mut i: usize = 0;
        while i < self.rules.len()
            invariant
                i <= self.rules@.len(),
                forall|j: int| 0 <= j < i ==> !#[trigger] self.rule_matches(j, *path),
            decreases self.rules@.len() - i,
        {
            if self.rules[i].matches(path) {
                let c = self.rules[i].category();
                assert(self.first_match(i as int, *path));
                return Some(c);
            }
            i = i + 1;
        }
        None
    }

    /// The category with identifier `id`, from the first rule that assigns it.
    pub fn category_by_id(&self, id: &str) -> (r: Option<StorageCategoryDef>)
        ensures
            r is Some <==> exists|i: int| 0 <= i < self.rule_count() && #[trigger] self.rule_category_id(i) == id@,
            r matches Some(c) ==> c.id@ == id@ && exists|i: int| #[trigger] self.first_with_id(i, id@),
            r matches Some(c) ==> c.display_name@ == self.display_name_for(id@),
            r matches Some(c) ==> forall|i: int| #[trigger] self.first_with_id(i, id@) ==> category_view(c) == self.rule_definition(i),
            r is None ==> self.display_name_for(id@) == id@,
            self.rule_count() == 0 ==> r is None,
    {
        let mut i: usize = 0;
        while i < self.rules.len()
            invariant
                i <= self.rules@.len(),
                forall|j: int| 0 <= j < i ==> #[trigger] self.rule_category_id(j) != id@,
            decreases self.rules@.len() - i,
        {
            let c = self.rules[i].category();
            if crate::text::str_eq(c.id.as_str(), id) {
                assert(self.first_with_id(i as int, id@));
                proof {
                    let k = choose|k: int| #[trigger] self.first_with_id(k, id@);
                    self.lemma_first_with_id_unique(i as int, k, id@);
                    assert forall|k2: int| #[trigger] self.first_with_id(k2, id@) implies category_view(c) == self.rule_definition(k2) by {
                        self.lemma_first_with_id_unique(i as int, k2, id@);
                    }
                }
                return Some(c);
            }
            i = i + 1;
        }
        None
    }
}

impl Default for ClassificationEngine {
    fn default() -> (e: ClassificationEngine)
        ensures
            e.rule_count() == 0,
    {
        ClassificationEngine::new()
    }
}

} // verus!
