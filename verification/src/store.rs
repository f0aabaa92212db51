//! The relational store: the persisted rows (image, tag, junction), their
//! invariants, and the transactional scope through which all writes go.
//!
//! The store keeps three relations. `images` holds one row per image with a
//! system-assigned identifier, a label and a URL. `tags` holds one row per
//! distinct tag name. `links` is the junction relation tying images to tags.
//! Identifiers are allocated by a monotone counter starting at 1, and the
//! well-formedness predicate [`StoreModel::wf`] captures the schema
//! invariants: unique identifiers, unique tag names, no duplicate junction
//! pair, and referential integrity of the junction relation.
//!
//! Writes never touch a [`Store`] directly: a caller opens a [`Txn`] (a
//! draft of the whole store), performs any number of operations on the
//! draft, and either commits it — which installs the draft wholesale — or
//! drops it, leaving the store exactly as it was. This gives all-or-nothing
//! semantics to every compound write.

use vstd::prelude::*;

verus! {

/// Identifier of an image row, assigned by the store.
pub type ImageId = i32;

/// Identifier of a tag row, assigned by the store.
pub type TagId = i32;

/// One row of the image relation.
pub struct ImageRow {
    pub id: ImageId,
    pub label: String,
    pub url: String,
}

/// One row of the tag relation.
pub struct TagRow {
    pub id: TagId,
    pub name: String,
}

/// One row of the junction relation between images and tags.
pub struct ImageTagRow {
    pub image_id: ImageId,
    pub tag_id: TagId,
}

/// Mathematical model of an image row.
#[verifier::ext_equal]
pub struct ImageRowModel {
    pub id: int,
    pub label: Seq<char>,
    pub url: Seq<char>,
}

/// Mathematical model of a tag row.
#[verifier::ext_equal]
pub struct TagRowModel {
    pub id: int,
    pub name: Seq<char>,
}

/// Mathematical model of a junction row.
#[verifier::ext_equal]
pub struct LinkModel {
    pub image_id: int,
    pub tag_id: int,
}

/// Mathematical model of the whole store: the three relations in insertion
/// order, plus the two identifier counters.
#[verifier::ext_equal]
pub struct StoreModel {
    pub images: Seq<ImageRowModel>,
    pub tags: Seq<TagRowModel>,
    pub links: Seq<LinkModel>,
    pub next_image_id: int,
    pub next_tag_id: int,
}

impl View for ImageRow {
    type V = ImageRowModel;

    open spec fn view(&self) -> ImageRowModel {
        ImageRowModel { id: self.id as int, label: self.label@, url: self.url@ }
    }
}

impl DeepView for ImageRow {
    type V = ImageRowModel;

    open spec fn deep_view(&self) -> ImageRowModel {
        self@
    }
}

impl View for TagRow {
    type V = TagRowModel;

    open spec fn view(&self) -> TagRowModel {
        TagRowModel { id: self.id as int, name: self.name@ }
    }
}

impl DeepView for TagRow {
    type V = TagRowModel;

    open spec fn deep_view(&self) -> TagRowModel {
        self@
    }
}

impl View for ImageTagRow {
    type V = LinkModel;

    open spec fn view(&self) -> LinkModel {
        LinkModel { image_id: self.image_id as int, tag_id: self.tag_id as int }
    }
}

impl DeepView for ImageTagRow {
    type V = LinkModel;

    open spec fn deep_view(&self) -> LinkModel {
        self@
    }
}

impl StoreModel {
    /// The store as it is before anything has been inserted.
    pub open spec fn empty() -> StoreModel {
        StoreModel {
            images: Seq::empty(),
            tags: Seq::empty(),
            links: Seq::empty(),
            next_image_id: 1,
            next_tag_id: 1,
        }
    }

    /// Some image row carries identifier `id`.
    pub open spec fn has_image_id(self, id: int) -> bool {
        exists|k: int| 0 <= k < self.images.len() && (#[trigger] self.images[k]).id == id
    }

    /// Index of the image row carrying `id` (unique under `wf`).
    pub open spec fn image_index(self, id: int) -> int {
        choose|k: int| 0 <= k < self.images.len() && (#[trigger] self.images[k]).id == id
    }

    /// The image row carrying `id`.
    pub open spec fn image_at(self, id: int) -> ImageRowModel {
        self.images[self.image_index(id)]
    }

    /// Some tag row carries identifier `id`.
    pub open spec fn has_tag_id(self, id: int) -> bool {
        exists|k: int| 0 <= k < self.tags.len() && (#[trigger] self.tags[k]).id == id
    }

    /// Index of the tag row carrying `id` (unique under `wf`).
    pub open spec fn tag_index_by_id(self, id: int) -> int {
        choose|k: int| 0 <= k < self.tags.len() && (#[trigger] self.tags[k]).id == id
    }

    /// The name held by the tag row carrying `id`.
    pub open spec fn tag_name_of(self, id: int) -> Seq<char> {
        self.tags[self.tag_index_by_id(id)].name
    }

    /// Some tag row carries the name `name`.
    pub open spec fn has_tag_named(self, name: Seq<char>) -> bool {
        exists|k: int| 0 <= k < self.tags.len() && (#[trigger] self.tags[k]).name == name
    }

    /// Index of the tag row named `name` (unique under `wf`).
    pub open spec fn tag_index_by_name(self, name: Seq<char>) -> int {
        choose|k: int| 0 <= k < self.tags.len() && (#[trigger] self.tags[k]).name == name
    }

    /// The identifier of the tag row named `name`.
    pub open spec fn tag_id_of(self, name: Seq<char>) -> int {
        self.tags[self.tag_index_by_name(name)].id
    }

    /// The junction relation holds the pair (`image_id`, `tag_id`).
    pub open spec fn has_link(self, image_id: int, tag_id: int) -> bool {
        exists|k: int|
            0 <= k < self.links.len() && #[trigger] self.links[k] == (LinkModel {
                image_id,
                tag_id,
            })
    }

    /// The image `image_id` is associated with a tag named `name`.
    pub open spec fn image_has_tag(self, image_id: int, name: Seq<char>) -> bool {
        self.has_tag_named(name) && self.has_link(image_id, self.tag_id_of(name))
    }

    /// Names of the tags linked to `image_id` among the first `n` junction
    /// rows, in junction order.
    pub open spec fn link_names_upto(self, image_id: int, n: int) -> Seq<Seq<char>>
        decreases n,
    {
        if n <= 0 {
            Seq::empty()
        } else {
            let prefix = self.link_names_upto(image_id, n - 1);
            if self.links[n - 1].image_id == image_id {
                prefix.push(self.tag_name_of(self.links[n - 1].tag_id))
            } else {
                prefix
            }
        }
    }

    /// All tag names associated with `image_id`, in junction order.
    pub open spec fn tag_names_of_image(self, image_id: int) -> Seq<Seq<char>> {
        self.link_names_upto(image_id, self.links.len() as int)
    }

    /// Image identifiers are unique and below the allocation counter.
    pub open spec fn images_wf(self) -> bool {
        &&& forall|k: int|
            0 <= k < self.images.len() ==> 1 <= (#[trigger] self.images[k]).id
                < self.next_image_id
        &&& forall|k: int, l: int|
            #![trigger self.images[k], self.images[l]]
            0 <= k < l < self.images.len() ==> self.images[k].id != self.images[l].id
    }

    /// Tag identifiers and tag names are unique; identifiers are below the
    /// allocation counter.
    pub open spec fn tags_wf(self) -> bool {
        &&& forall|k: int|
            0 <= k < self.tags.len() ==> 1 <= (#[trigger] self.tags[k]).id < self.next_tag_id
        &&& forall|k: int, l: int|
            #![trigger self.tags[k], self.tags[l]]
            0 <= k < l < self.tags.len() ==> self.tags[k].id != self.tags[l].id
                && self.tags[k].name != self.tags[l].name
    }

    /// Junction pairs are unique and reference live image and tag rows.
    pub open spec fn links_wf(self) -> bool {
        &&& forall|k: int, l: int|
            #![trigger self.links[k], self.links[l]]
            0 <= k < l < self.links.len() ==> self.links[k] != self.links[l]
        &&& forall|k: int|
            0 <= k < self.links.len() ==> self.has_image_id((#[trigger] self.links[k]).image_id)
                && self.has_tag_id(self.links[k].tag_id)
    }

    /// Well-formedness of the whole store: the schema invariants.
    pub open spec fn wf(self) -> bool {
        &&& 1 <= self.next_image_id <= i32::MAX
        &&& 1 <= self.next_tag_id <= i32::MAX
        &&& self.images_wf()
        &&& self.tags_wf()
        &&& self.links_wf()
    }
}

/// Under `wf`, any index holding the image `id` is `image_index(id)`.
pub proof fn lemma_image_index_unique(m: StoreModel, k: int)
    requires
        m.wf(),
        0 <= k < m.images.len(),
    ensures
        m.image_index(m.images[k].id) == k,
        m.has_image_id(m.images[k].id),
{
    let id = m.images[k].id;
    assert(m.has_image_id(id));
    let k0 = m.image_index(id);
    if k0 != k {
        if k0 < k {
            assert(m.images[k0].id != m.images[k].id);
        } else {
            assert(m.images[k].id != m.images[k0].id);
        }
    }
}

/// Under `wf`, any index holding the tag `id` is `tag_index_by_id(id)`.
pub proof fn lemma_tag_index_by_id_unique(m: StoreModel, k: int)
    requires
        m.wf(),
        0 <= k < m.tags.len(),
    ensures
        m.tag_index_by_id(m.tags[k].id) == k,
        m.has_tag_id(m.tags[k].id),
        m.tag_name_of(m.tags[k].id) == m.tags[k].name,
{
    let id = m.tags[k].id;
    assert(m.has_tag_id(id));
    let k0 = m.tag_index_by_id(id);
    if k0 != k {
        if k0 < k {
            assert(m.tags[k0].id != m.tags[k].id);
        } else {
            assert(m.tags[k].id != m.tags[k0].id);
        }
    }
}

/// Under `wf`, any index holding the tag name `name` is
/// `tag_index_by_name(name)`.
pub proof fn lemma_tag_index_by_name_unique(m: StoreModel, k: int)
    requires
        m.wf(),
        0 <= k < m.tags.len(),
    ensures
        m.tag_index_by_name(m.tags[k].name) == k,
        m.has_tag_named(m.tags[k].name),
        m.tag_id_of(m.tags[k].name) == m.tags[k].id,
{
    let name = m.tags[k].name;
    assert(m.has_tag_named(name));
    let k0 = m.tag_index_by_name(name);
    if k0 != k {
        if k0 < k {
            assert(m.tags[k0].name != m.tags[k].name);
        } else {
            assert(m.tags[k].name != m.tags[k0].name);
        }
    }
}

/// Errors raised by the store layer itself.
#[derive(Clone, Copy, Debug, PartialEq, Eq, Structural)]
pub enum StoreError {
    /// The identifier counter of a relation has reached its ceiling, so no
    /// further row can be assigned a fresh identifier.
    IdSpaceExhausted,
}

/// The in-memory relational store.
pub struct Store {
    pub images: Vec<ImageRow>,
    pub tags: Vec<TagRow>,
    pub links: Vec<ImageTagRow>,
    pub next_image_id: ImageId,
    pub next_tag_id: TagId,
}

impl View for Store {
    type V = StoreModel;

    open spec fn view(&self) -> StoreModel {
        StoreModel {
            images: self.images.deep_view(),
            tags: self.tags.deep_view(),
            links: self.links.deep_view(),
            next_image_id: self.next_image_id as int,
            next_tag_id: self.next_tag_id as int,
        }
    }
}

impl Store {
    /// Well-formedness of the store's model.
    pub open spec fn wf(&self) -> bool {
        self@.wf()
    }

    /// Creates an empty store with both identifier counters at 1.
    pub fn new() -> (s: Store)
        ensures
            s@ == StoreModel::empty(),
            s.wf(),
    {
        let s = Store {
            images: Vec::new(),
            tags: Vec::new(),
            links: Vec::new(),
            next_image_id: 1,
            next_tag_id: 1,
        };
        proof {
            assert(s@ =~= StoreModel::empty());
        }
        s
    }

    /// Opens a transactional scope: a draft of the whole store that can be
    /// written freely and later committed, or dropped to roll back.
    pub fn begin(&self) -> (t: Txn)
        ensures
            t@ == self@,
    {
        let t = Txn {
            draft: Store {
                images: clone_image_rows(&self.images),
                tags: clone_tag_rows(&self.tags),
                links: clone_link_rows(&self.links),
                next_image_id: self.next_image_id,
                next_tag_id: self.next_tag_id,
            },
        };
        proof {
            assert(t@ =~= self@);
        }
        t
    }
}

fn clone_image_rows(v: &Vec<ImageRow>) -> (r: Vec<ImageRow>)
    ensures
        r.deep_view() == v.deep_view(),
{
    let mut r: Vec<ImageRow> = Vec::new();
    let n = v.len();
    let mut i: usize = 0;
    while i < n
        invariant
            n == v.len(),
            i <= n,
            r@.len() == i,
            forall|j: int| 0 <= j < i ==> (#[trigger] r@[j])@ == v@[j]@,
        decreases n - i,
    {
        let row = &v[i];
        r.push(ImageRow { id: row.id, label: row.label.clone(), url: row.url.clone() });
        i += 1;
    }
    proof {
        assert(r.deep_view() =~= v.deep_view());
    }
    r
}

fn clone_tag_rows(v: &Vec<TagRow>) -> (r: Vec<TagRow>)
    ensures
        r.deep_view() == v.deep_view(),
{
    let mut r: Vec<TagRow> = Vec::new();
    let n = v.len();
    let mut i: usize = 0;
    while i < n
        invariant
            n == v.len(),
            i <= n,
            r@.len() == i,
            forall|j: int| 0 <= j < i ==> (#[trigger] r@[j])@ == v@[j]@,
        decreases n - i,
    {
        let row = &v[i];
        r.push(TagRow { id: row.id, name: row.name.clone() });
        i += 1;
    }
    proof {
        assert(r.deep_view() =~= v.deep_view());
    }
    r
}

fn clone_link_rows(v: &Vec<ImageTagRow>) -> (r: Vec<ImageTagRow>)
    ensures
        r.deep_view() == v.deep_view(),
{
    let mut r: Vec<ImageTagRow> = Vec::new();
    let n = v.len();
    let mut i: usize = 0;
    while i < n
        invariant
            n == v.len(),
            i <= n,
            r@.len() == i,
            forall|j: int| 0 <= j < i ==> (#[trigger] r@[j])@ == v@[j]@,
        decreases n - i,
    {
        let row = &v[i];
        r.push(ImageTagRow { image_id: row.image_id, tag_id: row.tag_id });
        i += 1;
    }
    proof {
        assert(r.deep_view() =~= v.deep_view());
    }
    r
}

/// A transactional scope: a private draft of the store. Operations mutate
/// the draft only; `commit` installs the draft, and dropping the scope
/// discards every change.
pub struct Txn {
    pub(crate) draft: Store,
}

impl View for Txn {
    type V = StoreModel;

    closed spec fn view(&self) -> StoreModel {
        self.draft@
    }
}

/// Widens a sequence of machine integers to mathematical integers.
pub open spec fn int_seq(v: Seq<i32>) -> Seq<int> {
    v.map_values(|x: i32| x as int)
}

/// Transfers `has_image_id` between stores whose image rows carry the same
/// identifiers position by position.
pub proof fn lemma_same_image_ids(m1: StoreModel, m2: StoreModel, id: int)
    requires
        m1.has_image_id(id),
        m1.images.len() <= m2.images.len(),
        forall|w: int|
            0 <= w < m1.images.len() ==> (#[trigger] m1.images[w]).id == m2.images[w].id,
    ensures
        m2.has_image_id(id),
{
    let w = choose|w: int| 0 <= w < m1.images.len() && (#[trigger] m1.images[w]).id == id;
    assert(m2.images[w].id == id);
}

/// Transfers `has_tag_id` between stores whose tag rows carry the same
/// identifiers position by position.
pub proof fn lemma_same_tag_ids(m1: StoreModel, m2: StoreModel, id: int)
    requires
        m1.has_tag_id(id),
        m1.tags.len() <= m2.tags.len(),
        forall|w: int| 0 <= w < m1.tags.len() ==> (#[trigger] m1.tags[w]).id == m2.tags[w].id,
    ensures
        m2.has_tag_id(id),
{
    let w = choose|w: int| 0 <= w < m1.tags.len() && (#[trigger] m1.tags[w]).id == id;
    assert(m2.tags[w].id == id);
}

/// Resolving `name` succeeds: either the tag exists, or a fresh identifier
/// can still be assigned.
pub open spec fn resolve_ok(m: StoreModel, name: Seq<char>) -> bool {
    m.has_tag_named(name) || m.next_tag_id < i32::MAX
}

/// The store after resolving `name`: unchanged when the tag exists, else
/// extended by one fresh tag row named `name`.
pub open spec fn resolve_state(m: StoreModel, name: Seq<char>) -> StoreModel {
    if m.has_tag_named(name) {
        m
    } else {
        StoreModel {
            tags: m.tags.push(TagRowModel { id: m.next_tag_id, name }),
            next_tag_id: m.next_tag_id + 1,
            ..m
        }
    }
}

/// The identifier that resolving `name` returns.
pub open spec fn resolve_id(m: StoreModel, name: Seq<char>) -> int {
    if m.has_tag_named(name) {
        m.tag_id_of(name)
    } else {
        m.next_tag_id
    }
}

/// Resolution keeps the store well formed, and afterwards the tag exists
/// under the returned identifier.
pub proof fn lemma_resolve_tag_wf(m: StoreModel, name: Seq<char>)
    requires
        m.wf(),
        resolve_ok(m, name),
    ensures
        resolve_state(m, name).wf(),
        resolve_state(m, name).has_tag_named(name),
        resolve_state(m, name).tag_id_of(name) == resolve_id(m, name),
        resolve_state(m, name).has_tag_id(resolve_id(m, name)),
        resolve_state(m, name).tag_name_of(resolve_id(m, name)) == name,
{
    let m1 = resolve_state(m, name);
    if m.has_tag_named(name) {
        let k = m.tag_index_by_name(name);
        lemma_tag_index_by_name_unique(m, k);
        lemma_tag_index_by_id_unique(m, k);
    } else {
        let n = m.tags.len() as int;
        assert(m1.tags[n].name == name);
        assert forall|k: int, l: int|
            #![trigger m1.tags[k], m1.tags[l]]
            0 <= k < l < m1.tags.len() implies m1.tags[k].id != m1.tags[l].id && m1.tags[k].name
            != m1.tags[l].name by {
            if l < n {
                assert(m1.tags[k] == m.tags[k]);
                assert(m1.tags[l] == m.tags[l]);
            } else {
                assert(m1.tags[k] == m.tags[k]);
                assert(1 <= m.tags[k].id < m.next_tag_id);
                assert(m.tags[k].name != name);
            }
        }
        assert forall|k: int|
            0 <= k < m1.links.len() implies m1.has_image_id(
            (#[trigger] m1.links[k]).image_id,
        ) && m1.has_tag_id(m1.links[k].tag_id) by {
            assert(m.has_image_id(m.links[k].image_id));
            assert(m.has_tag_id(m.links[k].tag_id));
            lemma_same_image_ids(m, m1, m.links[k].image_id);
            lemma_same_tag_ids(m, m1, m.links[k].tag_id);
        }
        assert(m1.tags_wf());
        assert(m1.links_wf());
        lemma_tag_index_by_name_unique(m1, n);
        lemma_tag_index_by_id_unique(m1, n);
    }
}

/// Resolving a tag name is idempotent: resolving `name` right after a
/// resolution of `name` returns the same identifier and changes nothing,
/// so no second row is ever created for one name.
pub proof fn lemma_resolve_tag_idempotent(m: StoreModel, name: Seq<char>)
    requires
        m.wf(),
        resolve_ok(m, name),
    ensures
        resolve_state(resolve_state(m, name), name) == resolve_state(m, name),
        resolve_id(resolve_state(m, name), name) == resolve_id(m, name),
{
    lemma_resolve_tag_wf(m, name);
}

/// Resolution is stable across transactions: whenever some tag row holds
/// `name` — as one does after any earlier resolution of it, because tags
/// are never deleted — resolving `name` returns that row's identifier and
/// leaves the store unchanged.
pub proof fn lemma_resolve_tag_stable(m: StoreModel, name: Seq<char>, k: int)
    requires
        m.wf(),
        0 <= k < m.tags.len(),
        m.tags[k].name == name,
    ensures
        resolve_state(m, name) == m,
        resolve_id(m, name) == m.tags[k].id,
{
    lemma_tag_index_by_name_unique(m, k);
}

/// Inserting an image row succeeds: a fresh identifier can be assigned.
pub open spec fn insert_row_ok(m: StoreModel) -> bool {
    m.next_image_id < i32::MAX
}

/// The identifier assigned to a newly inserted image row.
pub open spec fn insert_row_id(m: StoreModel) -> int {
    m.next_image_id
}

/// The store after inserting an image row with `label` and `url`.
pub open spec fn insert_row_state(m: StoreModel, label: Seq<char>, url: Seq<char>) -> StoreModel {
    StoreModel {
        images: m.images.push(ImageRowModel { id: m.next_image_id, label, url }),
        next_image_id: m.next_image_id + 1,
        ..m
    }
}

/// Row insertion keeps the store well formed; the new row is found under
/// the assigned identifier, and no junction row references it yet.
pub proof fn lemma_insert_row_wf(m: StoreModel, label: Seq<char>, url: Seq<char>)
    requires
        m.wf(),
        insert_row_ok(m),
    ensures
        insert_row_state(m, label, url).wf(),
        insert_row_state(m, label, url).has_image_id(insert_row_id(m)),
        insert_row_state(m, label, url).image_at(insert_row_id(m)) == (ImageRowModel {
            id: insert_row_id(m),
            label,
            url,
        }),
        forall|t: int| !m.has_link(insert_row_id(m), t),
{
    let m1 = insert_row_state(m, label, url);
    let n = m.images.len() as int;
    assert forall|k: int, l: int|
        #![trigger m1.images[k], m1.images[l]]
        0 <= k < l < m1.images.len() implies m1.images[k].id != m1.images[l].id by {
        if l < n {
            assert(m1.images[k] == m.images[k]);
            assert(m1.images[l] == m.images[l]);
        } else {
            assert(m1.images[k] == m.images[k]);
            assert(1 <= m.images[k].id < m.next_image_id);
        }
    }
    assert forall|k: int|
        0 <= k < m1.links.len() implies m1.has_image_id((#[trigger] m1.links[k]).image_id)
        && m1.has_tag_id(m1.links[k].tag_id) by {
        assert(m.has_image_id(m.links[k].image_id));
        assert(m.has_tag_id(m.links[k].tag_id));
        lemma_same_image_ids(m, m1, m.links[k].image_id);
        lemma_same_tag_ids(m, m1, m.links[k].tag_id);
    }
    assert(m1.images_wf());
    assert(m1.links_wf());
    lemma_image_index_unique(m1, n);
    assert forall|t: int| !m.has_link(insert_row_id(m), t) by {
        if m.has_link(insert_row_id(m), t) {
            let k = choose|k: int|
                0 <= k < m.links.len() && #[trigger] m.links[k] == (LinkModel {
                    image_id: insert_row_id(m),
                    tag_id: t,
                });
            assert(m.has_image_id(m.links[k].image_id));
            let w = choose|w: int|
                0 <= w < m.images.len() && (#[trigger] m.images[w]).id == m.links[k].image_id;
            assert(m.images[w].id < m.next_image_id);
        }
    }
}

/// The store after adding one junction row per identifier in `tag_ids`,
/// each pairing that tag with `image_id`, in order.
pub open spec fn add_links_state(m: StoreModel, image_id: int, tag_ids: Seq<int>) -> StoreModel {
    StoreModel {
        links: m.links + tag_ids.map_values(|t: int| LinkModel { image_id, tag_id: t }),
        ..m
    }
}

/// Bulk junction insertion keeps the store well formed when the referenced
/// rows exist, the identifiers are distinct, and no pair is present yet.
pub proof fn lemma_add_links_wf(m: StoreModel, image_id: int, tag_ids: Seq<int>)
    requires
        m.wf(),
        m.has_image_id(image_id),
        forall|j: int| 0 <= j < tag_ids.len() ==> m.has_tag_id(#[trigger] tag_ids[j]),
        forall|j: int, l: int|
            #![trigger tag_ids[j], tag_ids[l]]
            0 <= j < l < tag_ids.len() ==> tag_ids[j] != tag_ids[l],
        forall|j: int| 0 <= j < tag_ids.len() ==> !m.has_link(image_id, #[trigger] tag_ids[j]),
    ensures
        add_links_state(m, image_id, tag_ids).wf(),
{
    let m1 = add_links_state(m, image_id, tag_ids);
    let n = m.links.len() as int;
    let added = tag_ids.map_values(|t: int| LinkModel { image_id, tag_id: t });
    assert forall|k: int, l: int|
        #![trigger m1.links[k], m1.links[l]]
        0 <= k < l < m1.links.len() implies m1.links[k] != m1.links[l] by {
        if l < n {
            assert(m1.links[k] == m.links[k]);
            assert(m1.links[l] == m.links[l]);
        } else if k < n {
            assert(m1.links[k] == m.links[k]);
            assert(m1.links[l] == added[l - n]);
            if m.links[k] == added[l - n] {
                assert(m.has_link(image_id, tag_ids[l - n]));
            }
        } else {
            assert(m1.links[k] == added[k - n]);
            assert(m1.links[l] == added[l - n]);
            assert(tag_ids[k - n] != tag_ids[l - n]);
        }
    }
    assert forall|k: int|
        0 <= k < m1.links.len() implies m1.has_image_id((#[trigger] m1.links[k]).image_id)
        && m1.has_tag_id(m1.links[k].tag_id) by {
        if k < n {
            assert(m1.links[k] == m.links[k]);
            assert(m.has_image_id(m.links[k].image_id));
            assert(m.has_tag_id(m.links[k].tag_id));
            lemma_same_image_ids(m, m1, m.links[k].image_id);
            lemma_same_tag_ids(m, m1, m.links[k].tag_id);
        } else {
            assert(m1.links[k] == added[k - n]);
            assert(m.has_tag_id(tag_ids[k - n]));
            lemma_same_image_ids(m, m1, image_id);
            lemma_same_tag_ids(m, m1, tag_ids[k - n]);
        }
    }
    assert(m1.links_wf());
}

/// The store after replacing the URL of the image row carrying `image_id`.
pub open spec fn patch_url_state(m: StoreModel, image_id: int, url: Seq<char>) -> StoreModel {
    let k = m.image_index(image_id);
    StoreModel { images: m.images.update(k, ImageRowModel { url, ..m.images[k] }), ..m }
}

/// Patching a URL keeps the store well formed and touches nothing but that
/// one row's URL.
pub proof fn lemma_patch_url_wf(m: StoreModel, image_id: int, url: Seq<char>)
    requires
        m.wf(),
        m.has_image_id(image_id),
    ensures
        patch_url_state(m, image_id, url).wf(),
        patch_url_state(m, image_id, url).has_image_id(image_id),
        patch_url_state(m, image_id, url).image_at(image_id) == (ImageRowModel {
            id: image_id,
            label: m.image_at(image_id).label,
            url,
        }),
{
    let m1 = patch_url_state(m, image_id, url);
    let i = m.image_index(image_id);
    assert(0 <= i < m.images.len() && m.images[i].id == image_id);
    assert forall|k: int, l: int|
        #![trigger m1.images[k], m1.images[l]]
        0 <= k < l < m1.images.len() implies m1.images[k].id != m1.images[l].id by {
        assert(m1.images[k].id == m.images[k].id);
        assert(m1.images[l].id == m.images[l].id);
    }
    assert forall|k: int|
        0 <= k < m1.images.len() implies 1 <= (#[trigger] m1.images[k]).id
        < m1.next_image_id by {
        assert(m1.images[k].id == m.images[k].id);
        assert(1 <= m.images[k].id < m.next_image_id);
    }
    assert forall|k: int|
        0 <= k < m1.links.len() implies m1.has_image_id((#[trigger] m1.links[k]).image_id)
        && m1.has_tag_id(m1.links[k].tag_id) by {
        assert(m.has_image_id(m.links[k].image_id));
        assert(m.has_tag_id(m.links[k].tag_id));
        lemma_same_image_ids(m, m1, m.links[k].image_id);
        lemma_same_tag_ids(m, m1, m.links[k].tag_id);
    }
    assert(m1.images_wf());
    assert(m1.links_wf());
    assert(m1.images[i].id == image_id);
    lemma_image_index_unique(m1, i);
}

pub(crate) fn find_tag_id_by_name(tags: &Vec<TagRow>, name: &String) -> (r: Option<TagId>)
    ensures
        match r {
            Some(tid) => exists|k: int|
                0 <= k < tags@.len() && (#[trigger] tags@[k])@.name == name@ && tags@[k]@.id
                    == tid as int,
            None => forall|k: int| 0 <= k < tags@.len() ==> (#[trigger] tags@[k])@.name != name@,
        },
{
    let n = tags.len();
    let mut i: usize = 0;
    while i < n
        invariant
            n == tags@.len(),
            i <= n,
            forall|k: int| 0 <= k < i ==> (#[trigger] tags@[k])@.name != name@,
        decreases n - i,
    {
        if tags[i].name == *name {
            return Some(tags[i].id);
        }
        i += 1;
    }
    None
}

pub(crate) fn contains_id(v: &Vec<TagId>, x: TagId) -> (b: bool)
    ensures
        b == int_seq(v@).contains(x as int),
{
    let n = v.len();
    let mut i: usize = 0;
    while i < n
        invariant
            n == v@.len(),
            i <= n,
            forall|k: int| 0 <= k < i ==> int_seq(v@)[k] != x as int,
        decreases n - i,
    {
        if v[i] == x {
            proof {
                assert(int_seq(v@)[i as int] == x as int);
            }
            return true;
        }
        i += 1;
    }
    proof {
        if int_seq(v@).contains(x as int) {
            let k = choose|k: int| 0 <= k < int_seq(v@).len() && int_seq(v@)[k] == x as int;
            assert(int_seq(v@)[k] != x as int);
        }
    }
    false
}

impl Txn {
    /// Returns the identifier of the tag named `name`, inserting a fresh
    /// tag row first when no tag of that exact name exists. Because it runs
    /// inside this transactional scope, a tag created here is discarded
    /// again if the scope is dropped instead of committed. Fails only when
    /// the tag identifier space is exhausted, and then changes nothing.
    pub fn resolve_tag(&mut self, name: &String) -> (r: Result<TagId, StoreError>)
        requires
            old(self)@.wf(),
        ensures
            final(self)@.wf(),
            match r {
                Ok(tid) => {
                    &&& resolve_ok(old(self)@, name@)
                    &&& final(self)@ == resolve_state(old(self)@, name@)
                    &&& tid as int == resolve_id(old(self)@, name@)
                },
                Err(e) => {
                    &&& !resolve_ok(old(self)@, name@)
                    &&& final(self)@ == old(self)@
                    &&& e == StoreError::IdSpaceExhausted
                },
            },
    {
        let found = find_tag_id_by_name(&self.draft.tags, name);
        match found {
            Some(tid) => {
                proof {
                    let m = old(self)@;
                    let k = choose|k: int|
                        0 <= k < self.draft.tags@.len() && (#[trigger] self.draft.tags@[k])@.name
                            == name@ && self.draft.tags@[k]@.id == tid as int;
                    assert(m.tags[k] == self.draft.tags@[k]@);
                    lemma_tag_index_by_name_unique(m, k);
                    lemma_resolve_tag_wf(m, name@);
                }
                Ok(tid)
            },
            None => {
                proof {
                    let m = old(self)@;
                    if m.has_tag_named(name@) {
                        let k = m.tag_index_by_name(name@);
                        assert(self.draft.tags@[k]@.name == name@);
                    }
                }
                if self.draft.next_tag_id == i32::MAX {
                    return Err(StoreError::IdSpaceExhausted);
                }
                let id = self.draft.next_tag_id;
                self.draft.next_tag_id = id + 1;
                self.draft.tags.push(TagRow { id, name: name.clone() });
                proof {
                    let m = old(self)@;
                    assert(self@.tags =~= m.tags.push(
                        TagRowModel { id: id as int, name: name@ },
                    ));
                    assert(self@ =~= resolve_state(m, name@));
                    lemma_resolve_tag_wf(m, name@);
                }
                Ok(id)
            },
        }
    }

    /// Inserts one image row holding `label` and `url`, assigning the next
    /// image identifier. Fails only when the image identifier space is
    /// exhausted, and then changes nothing.
    pub fn insert_image_row(&mut self, label: String, url: String) -> (r: Result<
        ImageId,
        StoreError,
    >)
        requires
            old(self)@.wf(),
        ensures
            final(self)@.wf(),
            match r {
                Ok(id) => {
                    &&& insert_row_ok(old(self)@)
                    &&& final(self)@ == insert_row_state(old(self)@, label@, url@)
                    &&& id as int == insert_row_id(old(self)@)
                },
                Err(e) => {
                    &&& !insert_row_ok(old(self)@)
                    &&& final(self)@ == old(self)@
                    &&& e == StoreError::IdSpaceExhausted
                },
            },
    {
        if self.draft.next_image_id == i32::MAX {
            return Err(StoreError::IdSpaceExhausted);
        }
        let id = self.draft.next_image_id;
        self.draft.next_image_id = id + 1;
        self.draft.images.push(ImageRow { id, label, url });
        proof {
            let m = old(self)@;
            assert(self@.images =~= m.images.push(
                ImageRowModel { id: id as int, label: label@, url: url@ },
            ));
            assert(self@ =~= insert_row_state(m, label@, url@));
            lemma_insert_row_wf(m, label@, url@);
        }
        Ok(id)
    }

    /// Adds one junction row per identifier in `tag_ids`, each pairing that
    /// tag with `image_id`. The caller must hand in distinct identifiers of
    /// live tag rows, none of which is linked to `image_id` yet, so the
    /// bulk insertion cannot violate the junction key and always succeeds.
    pub fn insert_links(&mut self, image_id: ImageId, tag_ids: &Vec<TagId>)
        requires
            old(self)@.wf(),
            old(self)@.has_image_id(image_id as int),
            forall|j: int|
                0 <= j < tag_ids@.len() ==> old(self)@.has_tag_id((#[trigger] tag_ids@[j]) as int),
            forall|j: int, l: int|
                #![trigger tag_ids@[j], tag_ids@[l]]
                0 <= j < l < tag_ids@.len() ==> tag_ids@[j] != tag_ids@[l],
            forall|j: int|
                0 <= j < tag_ids@.len() ==> !old(self)@.has_link(
                    image_id as int,
                    (#[trigger] tag_ids@[j]) as int,
                ),
        ensures
            final(self)@.wf(),
            final(self)@ == add_links_state(old(self)@, image_id as int, int_seq(tag_ids@)),
    {
        let n = tag_ids.len();
        let mut i: usize = 0;
        while i < n
            invariant
                n == tag_ids@.len(),
                i <= n,
                self@.images == old(self)@.images,
                self@.tags == old(self)@.tags,
                self@.next_image_id == old(self)@.next_image_id,
                self@.next_tag_id == old(self)@.next_tag_id,
                self@.links.len() == old(self)@.links.len() + i,
                forall|j: int|
                    0 <= j < old(self)@.links.len() ==> self@.links[j] == old(self)@.links[j],
                forall|j: int|
                    0 <= j < i ==> self@.links[old(self)@.links.len() + j] == (LinkModel {
                        image_id: image_id as int,
                        tag_id: tag_ids@[j] as int,
                    }),
            decreases n - i,
        {
            let ghost prev = self@.links;
            self.draft.links.push(ImageTagRow { image_id, tag_id: tag_ids[i] });
            proof {
                assert(self@.links =~= prev.push(
                    LinkModel { image_id: image_id as int, tag_id: tag_ids@[i as int] as int },
                ));
            }
            i += 1;
        }
        proof {
            let m = old(self)@;
            lemma_add_links_wf(m, image_id as int, int_seq(tag_ids@));
            assert(self@ =~= add_links_state(m, image_id as int, int_seq(tag_ids@)));
        }
    }

    /// Replaces the URL of the image row carrying `image_id`, which must
    /// exist; everything else is untouched.
    pub fn update_image_url(&mut self, image_id: ImageId, url: String)
        requires
            old(self)@.wf(),
            old(self)@.has_image_id(image_id as int),
        ensures
            final(self)@.wf(),
            final(self)@ == patch_url_state(old(self)@, image_id as int, url@),
    {
        let n = self.draft.images.len();
        let mut i: usize = 0;
        while i < n
            invariant
                old(self)@.wf(),
                old(self)@.has_image_id(image_id as int),
                n == self.draft.images@.len(),
                i <= n,
                self@ == old(self)@,
                forall|k: int| 0 <= k < i ==> old(self)@.images[k].id != image_id as int,
            decreases n - i,
        {
            if self.draft.images[i].id == image_id {
                proof {
                    lemma_image_index_unique(old(self)@, i as int);
                }
                self.draft.images[i].url = url;
                proof {
                    let m = old(self)@;
                    assert(self@.images =~= m.images.update(
                        i as int,
                        ImageRowModel { url: url@, ..m.images[i as int] },
                    ));
                    assert(self@ =~= patch_url_state(m, image_id as int, url@));
                    lemma_patch_url_wf(m, image_id as int, url@);
                }
                return ;
            }
            i += 1;
        }
        proof {
            let m = old(self)@;
            let k = choose|k: int|
                0 <= k < m.images.len() && (#[trigger] m.images[k]).id == image_id as int;
            assert(false);
        }
    }

    /// Commits the scope: the store becomes exactly the draft.
    pub fn commit(self, store: &mut Store)
        ensures
            final(store)@ == self@,
    {
        *store = self.draft;
    }
}

} // verus!
