//! The tag-filter query engine: answering "which images match this tag-set
//! predicate" with fully hydrated rows, and the single-image lookup.
//!
//! Three predicates are supported: no filter, "has at least one of these
//! tags", and "has all of these tags". An empty requested set places no
//! constraint — it matches every image, for both the any-of and the all-of
//! form — so a vacuous predicate behaves like no filter.
//!
//! The all-of form is answered by relational aggregation rather than
//! in-memory set algebra over whole tag sets: the junction rows of each
//! image are restricted to the requested names and counted, and the image
//! qualifies exactly when the count equals the number of distinct
//! requested names. [`lemma_count_is_coverage`] proves that this counting
//! trick is equivalent to covering every requested name.

use vstd::prelude::*;
use crate::error::ErrorKind;
use crate::error::ServerError;
use crate::store::contains_id;
use crate::store::int_seq;
use crate::store::lemma_image_index_unique;
use crate::store::lemma_tag_index_by_id_unique;
use crate::store::lemma_tag_index_by_name_unique;
use crate::store::ImageId;
use crate::store::ImageRowModel;
use crate::store::LinkModel;
use crate::store::Store;
use crate::store::StoreModel;
use crate::store::TagId;
use crate::store::TagRow;

verus! {

/// One fully hydrated query result: an image's stored fields together with
/// the names of all its associated tags, in junction order.
pub struct ImageResult {
    pub url: String,
    pub tags: Vec<String>,
    pub label: String,
    pub id: ImageId,
}

/// Mathematical model of a query result.
#[verifier::ext_equal]
pub struct ImageResultModel {
    pub url: Seq<char>,
    pub tags: Seq<Seq<char>>,
    pub label: Seq<char>,
    pub id: int,
}

impl View for ImageResult {
    type V = ImageResultModel;

    open spec fn view(&self) -> ImageResultModel {
        ImageResultModel {
            url: self.url@,
            tags: self.tags.deep_view(),
            label: self.label@,
            id: self.id as int,
        }
    }
}

impl DeepView for ImageResult {
    type V = ImageResultModel;

    open spec fn deep_view(&self) -> ImageResultModel {
        self@
    }
}

/// A tag-set predicate over an image's associated tag names.
pub enum TagFilter {
    NoFilter,
    ContainsSomeTags(Vec<String>),
    ContainsAllTags(Vec<String>),
}

/// The image is associated with at least one of the names.
pub open spec fn has_any_tag(m: StoreModel, image_id: int, names: Seq<Seq<char>>) -> bool {
    exists|j: int| 0 <= j < names.len() && m.image_has_tag(image_id, #[trigger] names[j])
}

/// The image is associated with every one of the names (it may also carry
/// tags outside the set: this is a superset match).
pub open spec fn has_all_tags(m: StoreModel, image_id: int, names: Seq<Seq<char>>) -> bool {
    forall|j: int| 0 <= j < names.len() ==> m.image_has_tag(image_id, #[trigger] names[j])
}

/// Whether the image satisfies the filter. An empty requested set places
/// no constraint, in both filtering forms.
pub open spec fn admits(m: StoreModel, filter: TagFilter, image_id: int) -> bool {
    match filter {
        TagFilter::NoFilter => true,
        TagFilter::ContainsSomeTags(names) => names.deep_view().len() == 0 || has_any_tag(
            m,
            image_id,
            names.deep_view(),
        ),
        TagFilter::ContainsAllTags(names) => has_all_tags(m, image_id, names.deep_view()),
    }
}

/// The hydrated projection of one image row.
pub open spec fn result_of(m: StoreModel, image: ImageRowModel) -> ImageResultModel {
    ImageResultModel {
        url: image.url,
        tags: m.tag_names_of_image(image.id),
        label: image.label,
        id: image.id,
    }
}

/// The query answer over the first `n` image rows: one hydrated result per
/// admitted image, in store order.
pub open spec fn query_upto(m: StoreModel, filter: TagFilter, n: int) -> Seq<ImageResultModel>
    decreases n,
{
    if n <= 0 {
        Seq::empty()
    } else {
        let prefix = query_upto(m, filter, n - 1);
        if admits(m, filter, m.images[n - 1].id) {
            prefix.push(result_of(m, m.images[n - 1]))
        } else {
            prefix
        }
    }
}

/// The full query answer: every admitted image exactly once, hydrated, in
/// store order.
pub open spec fn spec_query(m: StoreModel, filter: TagFilter) -> Seq<ImageResultModel> {
    query_upto(m, filter, m.images.len() as int)
}

fn tag_name_by_id(tags: &Vec<TagRow>, tid: TagId) -> (r: String)
    requires
        exists|k: int| 0 <= k < tags@.len() && (#[trigger] tags@[k])@.id == tid as int,
    ensures
        exists|k: int|
            0 <= k < tags@.len() && (#[trigger] tags@[k])@.id == tid as int && r@ == tags@[k]@.name,
{
    let n = tags.len();
    let mut i: usize = 0;
    while i < n
        invariant
            n == tags@.len(),
            i <= n,
            exists|k: int| 0 <= k < tags@.len() && (#[trigger] tags@[k])@.id == tid as int,
            forall|k: int| 0 <= k < i ==> (#[trigger] tags@[k])@.id != tid as int,
        decreases n - i,
    {
        if tags[i].id == tid {
            return tags[i].name.clone();
        }
        i += 1;
    }
    proof {
        let k = choose|k: int| 0 <= k < tags@.len() && (#[trigger] tags@[k])@.id == tid as int;
        assert(false);
    }
    String::new()
}

/// All tag names associated with `image_id`, hydrated in junction order.
fn tags_for_image(store: &Store, image_id: ImageId) -> (r: Vec<String>)
    requires
        store.wf(),
    ensures
        r.deep_view() == store@.tag_names_of_image(image_id as int),
{
    let mut r: Vec<String> = Vec::new();
    let n = store.links.len();
    let mut j: usize = 0;
    while j < n
        invariant
            store.wf(),
            n == store.links@.len(),
            j <= n,
            r.deep_view() == store@.link_names_upto(image_id as int, j as int),
        decreases n - j,
    {
        let ghost m = store@;
        let ghost prev = r.deep_view();
        let link_image_id = store.links[j].image_id;
        let link_tag_id = store.links[j].tag_id;
        proof {
            assert(m.links[j as int] == store.links@[j as int]@);
        }
        if link_image_id == image_id {
            proof {
                assert(m.has_tag_id(link_tag_id as int));
                let w = choose|w: int|
                    0 <= w < m.tags.len() && (#[trigger] m.tags[w]).id == link_tag_id as int;
                assert((store.tags@[w])@.id == link_tag_id as int);
            }
            let name = tag_name_by_id(&store.tags, link_tag_id);
            proof {
                let k = choose|k: int|
                    0 <= k < store.tags@.len() && (#[trigger] store.tags@[k])@.id
                        == link_tag_id as int && name@ == store.tags@[k]@.name;
                assert(m.tags[k] == store.tags@[k]@);
                lemma_tag_index_by_id_unique(m, k);
                assert(name@ == m.tag_name_of(link_tag_id as int));
            }
            r.push(name);
            proof {
                assert(r.deep_view() =~= prev.push(m.tag_name_of(link_tag_id as int)));
                assert(r.deep_view() =~= m.link_names_upto(image_id as int, j + 1));
            }
        } else {
            proof {
                assert(r.deep_view() =~= m.link_names_upto(image_id as int, j + 1));
            }
        }
        j += 1;
    }
    r
}

fn hydrate(store: &Store, k: usize) -> (r: ImageResult)
    requires
        store.wf(),
        k < store.images@.len(),
    ensures
        r@ == result_of(store@, store@.images[k as int]),
{
    let row = &store.images[k];
    let id = row.id;
    let url = row.url.clone();
    let label = row.label.clone();
    let tags = tags_for_image(store, id);
    proof {
        assert(store@.images[k as int] == store.images@[k as int]@);
    }
    let r = ImageResult { url, tags, label, id };
    proof {
        assert(r@ =~= result_of(store@, store@.images[k as int]));
    }
    r
}

/// Looks one image up by its identifier and hydrates it with its tags; a
/// missing identifier is a not-found condition, distinct from any store
/// failure.
pub fn query_image_by_id(store: &Store, id: ImageId) -> (r: Result<ImageResult, ServerError>)
    requires
        store.wf(),
    ensures
        match r {
            Ok(res) => {
                &&& store@.has_image_id(id as int)
                &&& res@ == result_of(store@, store@.image_at(id as int))
                &&& res.id == id
            },
            Err(e) => {
                &&& !store@.has_image_id(id as int)
                &&& e.kind == ErrorKind::NotFound
                &&& e.msg@ == "no image found with the requested identifier"@
            },
        },
{
    let n = store.images.len();
    let mut k: usize = 0;
    while k < n
        invariant
            store.wf(),
            n == store.images@.len(),
            k <= n,
            forall|w: int| 0 <= w < k ==> (#[trigger] store@.images[w]).id != id as int,
        decreases n - k,
    {
        proof {
            assert(store@.images[k as int] == store.images@[k as int]@);
        }
        if store.images[k].id == id {
            proof {
                lemma_image_index_unique(store@, k as int);
            }
            let res = hydrate(store, k);
            return Ok(res);
        }
        k += 1;
    }
    proof {
        if store@.has_image_id(id as int) {
            let w = choose|w: int|
                0 <= w < store@.images.len() && (#[trigger] store@.images[w]).id == id as int;
            assert(false);
        }
    }
    Err(
        ServerError::new(
            ErrorKind::NotFound,
            String::from_str("no image found with the requested identifier"),
        ),
    )
}

/// The junction row at `k` joins `image_id` to a tag whose name is among
/// `names`.
pub open spec fn link_matches(m: StoreModel, image_id: int, names: Seq<Seq<char>>, k: int) -> bool {
    m.links[k].image_id == image_id && names.contains(m.tag_name_of(m.links[k].tag_id))
}

/// How many of the first `n` junction rows join `image_id` to a requested
/// name: the group-by-image, count-the-matches aggregation.
pub open spec fn count_links_upto(
    m: StoreModel,
    image_id: int,
    names: Seq<Seq<char>>,
    n: int,
) -> int
    decreases n,
{
    if n <= 0 {
        0
    } else {
        count_links_upto(m, image_id, names, n - 1) + if link_matches(m, image_id, names, n - 1) {
            1int
        } else {
            0int
        }
    }
}

/// The requested names that the first `n` junction rows tie to `image_id`.
pub open spec fn covered_upto(
    m: StoreModel,
    image_id: int,
    names: Seq<Seq<char>>,
    n: int,
) -> Set<Seq<char>>
    decreases n,
{
    if n <= 0 {
        Set::empty()
    } else {
        let prev = covered_upto(m, image_id, names, n - 1);
        if link_matches(m, image_id, names, n - 1) {
            prev.insert(m.tag_name_of(m.links[n - 1].tag_id))
        } else {
            prev
        }
    }
}

/// Every matching junction row of one image names a distinct tag, so the
/// count of matching rows equals the number of covered names.
pub proof fn lemma_covered(m: StoreModel, image_id: int, names: Seq<Seq<char>>, n: int)
    requires
        m.wf(),
        0 <= n <= m.links.len(),
    ensures
        covered_upto(m, image_id, names, n).finite(),
        forall|x: Seq<char>|
            #[trigger] covered_upto(m, image_id, names, n).contains(x) <==> exists|j: int|
                0 <= j < n && #[trigger] link_matches(m, image_id, names, j) && m.tag_name_of(
                    m.links[j].tag_id,
                ) == x,
        count_links_upto(m, image_id, names, n) == covered_upto(m, image_id, names, n).len(),
    decreases n,
{
    broadcast use vstd::set::group_set_axioms;

    if n > 0 {
        lemma_covered(m, image_id, names, n - 1);
        let prev = covered_upto(m, image_id, names, n - 1);
        let cur = covered_upto(m, image_id, names, n);
        if link_matches(m, image_id, names, n - 1) {
            let name = m.tag_name_of(m.links[n - 1].tag_id);
            if prev.contains(name) {
                let j = choose|j: int|
                    0 <= j < n - 1 && #[trigger] link_matches(m, image_id, names, j)
                        && m.tag_name_of(m.links[j].tag_id) == name;
                let t1 = m.links[j].tag_id;
                let t2 = m.links[n - 1].tag_id;
                assert(m.has_tag_id(t1));
                assert(m.has_tag_id(t2));
                let k1 = m.tag_index_by_id(t1);
                let k2 = m.tag_index_by_id(t2);
                assert(0 <= k1 < m.tags.len() && m.tags[k1].id == t1);
                assert(0 <= k2 < m.tags.len() && m.tags[k2].id == t2);
                if t1 != t2 {
                    assert(m.tags[k1].name == m.tags[k2].name);
                    if k1 < k2 {
                        assert(m.tags[k1].name != m.tags[k2].name);
                    } else {
                        assert(m.tags[k2].name != m.tags[k1].name);
                    }
                } else {
                    assert(m.links[j] == m.links[n - 1]);
                    assert(m.links[j] != m.links[n - 1]);
                }
                assert(false);
            }
            assert(cur.len() == prev.len() + 1);
            assert forall|x: Seq<char>| #[trigger] cur.contains(x) implies exists|j: int|
                0 <= j < n && #[trigger] link_matches(m, image_id, names, j) && m.tag_name_of(
                    m.links[j].tag_id,
                ) == x by {
                if x == name {
                    assert(link_matches(m, image_id, names, n - 1));
                } else {
                    assert(prev.contains(x));
                }
            }
            assert forall|x: Seq<char>|
                exists|j: int|
                    0 <= j < n && #[trigger] link_matches(m, image_id, names, j) && m.tag_name_of(
                        m.links[j].tag_id,
                    ) == x implies #[trigger] cur.contains(x) by {
                let j = choose|j: int|
                    0 <= j < n && #[trigger] link_matches(m, image_id, names, j) && m.tag_name_of(
                        m.links[j].tag_id,
                    ) == x;
                if j < n - 1 {
                    assert(prev.contains(x));
                }
            }
        } else {
            assert forall|x: Seq<char>| #[trigger] cur.contains(x) implies exists|j: int|
                0 <= j < n && #[trigger] link_matches(m, image_id, names, j) && m.tag_name_of(
                    m.links[j].tag_id,
                ) == x by {
                assert(prev.contains(x));
            }
            assert forall|x: Seq<char>|
                exists|j: int|
                    0 <= j < n && #[trigger] link_matches(m, image_id, names, j) && m.tag_name_of(
                        m.links[j].tag_id,
                    ) == x implies #[trigger] cur.contains(x) by {
                let j = choose|j: int|
                    0 <= j < n && #[trigger] link_matches(m, image_id, names, j) && m.tag_name_of(
                        m.links[j].tag_id,
                    ) == x;
                assert(j < n - 1);
                assert(prev.contains(x));
            }
        }
    }
}

/// In a well-formed store the tag named `name` exists and carries `name`
/// back under its identifier.
proof fn lemma_name_round_trip(m: StoreModel, name: Seq<char>)
    requires
        m.wf(),
        m.has_tag_named(name),
    ensures
        m.has_tag_id(m.tag_id_of(name)),
        m.tag_name_of(m.tag_id_of(name)) == name,
{
    let k = m.tag_index_by_name(name);
    assert(0 <= k < m.tags.len() && m.tags[k].name == name);
    lemma_tag_index_by_name_unique(m, k);
    lemma_tag_index_by_id_unique(m, k);
}

/// The count-of-matches aggregation is the all-of predicate: with distinct
/// requested names, an image's matching junction rows number exactly the
/// requested names if and only if the image covers every requested name.
pub proof fn lemma_count_is_coverage(m: StoreModel, image_id: int, names: Seq<Seq<char>>)
    requires
        m.wf(),
        names.no_duplicates(),
    ensures
        0 <= count_links_upto(m, image_id, names, m.links.len() as int) <= names.len(),
        count_links_upto(m, image_id, names, m.links.len() as int) == names.len()
            <==> has_all_tags(m, image_id, names),
{
    broadcast use vstd::set::group_set_axioms;

    let n = m.links.len() as int;
    lemma_covered(m, image_id, names, n);
    let cov = covered_upto(m, image_id, names, n);
    let nset = names.to_set();
    names.unique_seq_to_set();
    assert forall|x: Seq<char>| cov.contains(x) implies nset.contains(x) by {
        let j = choose|j: int|
            0 <= j < n && #[trigger] link_matches(m, image_id, names, j) && m.tag_name_of(
                m.links[j].tag_id,
            ) == x;
        assert(names.contains(x));
    }
    vstd::set_lib::lemma_len_subset(cov, nset);
    if has_all_tags(m, image_id, names) {
        assert forall|x: Seq<char>| nset.contains(x) implies cov.contains(x) by {
            assert(names.contains(x));
            let k = choose|k: int| 0 <= k < names.len() && names[k] == x;
            assert(m.image_has_tag(image_id, names[k]));
            lemma_name_round_trip(m, x);
            let t = m.tag_id_of(x);
            let j = choose|j: int|
                0 <= j < m.links.len() && #[trigger] m.links[j] == (LinkModel {
                    image_id,
                    tag_id: t,
                });
            assert(link_matches(m, image_id, names, j));
        }
        assert(cov =~= nset);
        assert(count_links_upto(m, image_id, names, n) == names.len());
    }
    if count_links_upto(m, image_id, names, n) == names.len() {
        assert(cov.len() == nset.len());
        assert forall|x: Seq<char>| nset.contains(x) implies cov.contains(x) by {
            if !cov.contains(x) {
                assert(cov.subset_of(nset.remove(x)));
                vstd::set_lib::lemma_len_subset(cov, nset.remove(x));
                assert(nset.remove(x).len() == nset.len() - 1);
                assert(false);
            }
        }
        assert forall|j: int| 0 <= j < names.len() implies m.image_has_tag(
            image_id,
            #[trigger] names[j],
        ) by {
            assert(names.contains(names[j]));
            assert(nset.contains(names[j]));
            assert(cov.contains(names[j]));
            let j0 = choose|j0: int|
                0 <= j0 < n && #[trigger] link_matches(m, image_id, names, j0) && m.tag_name_of(
                    m.links[j0].tag_id,
                ) == names[j];
            let t = m.links[j0].tag_id;
            assert(m.has_tag_id(t));
            let k0 = m.tag_index_by_id(t);
            assert(0 <= k0 < m.tags.len() && m.tags[k0].id == t);
            lemma_tag_index_by_id_unique(m, k0);
            assert(m.tags[k0].name == names[j]);
            lemma_tag_index_by_name_unique(m, k0);
            assert(m.has_tag_named(names[j]));
            assert(m.tag_id_of(names[j]) == t);
            assert(m.links[j0] == (LinkModel { image_id, tag_id: t }));
            assert(m.has_link(image_id, t));
        }
    }
}

/// An image covers a list of names exactly when it covers the list with
/// its repeats removed.
pub proof fn lemma_has_all_dedup(m: StoreModel, image_id: int, names: Seq<Seq<char>>)
    ensures
        has_all_tags(m, image_id, names) <==> has_all_tags(
            m,
            image_id,
            crate::write::dedup(names),
        ),
{
    crate::write::lemma_dedup(names);
    let d = crate::write::dedup(names);
    if has_all_tags(m, image_id, names) {
        assert forall|j: int| 0 <= j < d.len() implies m.image_has_tag(
            image_id,
            #[trigger] d[j],
        ) by {
            assert(d.contains(d[j]));
            assert(names.contains(d[j]));
            let k = choose|k: int| 0 <= k < names.len() && names[k] == d[j];
            assert(m.image_has_tag(image_id, names[k]));
        }
    }
    if has_all_tags(m, image_id, d) {
        assert forall|j: int| 0 <= j < names.len() implies m.image_has_tag(
            image_id,
            #[trigger] names[j],
        ) by {
            assert(names.contains(names[j]));
            assert(d.contains(names[j]));
            let k = choose|k: int| 0 <= k < d.len() && d[k] == names[j];
            assert(m.image_has_tag(image_id, d[k]));
        }
    }
}

/// The identifiers of the images, in store order, that cover every name.
pub open spec fn all_ids_upto(m: StoreModel, names: Seq<Seq<char>>, n: int) -> Seq<int>
    decreases n,
{
    if n <= 0 {
        Seq::empty()
    } else {
        let prefix = all_ids_upto(m, names, n - 1);
        if has_all_tags(m, m.images[n - 1].id, names) {
            prefix.push(m.images[n - 1].id)
        } else {
            prefix
        }
    }
}

/// Membership in the qualifying identifiers is exactly the all-of
/// predicate on a live image.
pub proof fn lemma_all_ids_contains(m: StoreModel, names: Seq<Seq<char>>, n: int, x: int)
    requires
        0 <= n <= m.images.len(),
    ensures
        all_ids_upto(m, names, n).contains(x) <==> exists|k: int|
            0 <= k < n && (#[trigger] m.images[k]).id == x && has_all_tags(m, x, names),
    decreases n,
{
    if n > 0 {
        lemma_all_ids_contains(m, names, n - 1, x);
        let prefix = all_ids_upto(m, names, n - 1);
        let cur = all_ids_upto(m, names, n);
        if cur.contains(x) {
            let j = choose|j: int| 0 <= j < cur.len() && cur[j] == x;
            if j < prefix.len() {
                assert(prefix[j] == x);
                assert(prefix.contains(x));
            } else {
                assert(m.images[n - 1].id == x);
            }
        }
        if exists|k: int| 0 <= k < n && (#[trigger] m.images[k]).id == x && has_all_tags(
            m,
            x,
            names,
        ) {
            let k = choose|k: int|
                0 <= k < n && (#[trigger] m.images[k]).id == x && has_all_tags(m, x, names);
            if k < n - 1 {
                assert(prefix.contains(x));
                let j = choose|j: int| 0 <= j < prefix.len() && prefix[j] == x;
                assert(cur[j] == x);
            } else {
                assert(cur[cur.len() - 1] == x);
            }
        }
    }
}

fn contains_name(v: &Vec<String>, x: &String) -> (b: bool)
    ensures
        b == v.deep_view().contains(x@),
{
    let n = v.len();
    let mut i: usize = 0;
    while i < n
        invariant
            n == v@.len(),
            i <= n,
            forall|k: int| 0 <= k < i ==> v.deep_view()[k] != x@,
        decreases n - i,
    {
        if v[i] == *x {
            proof {
                assert(v.deep_view()[i as int] == x@);
            }
            return true;
        }
        i += 1;
    }
    proof {
        if v.deep_view().contains(x@) {
            let k = choose|k: int| 0 <= k < v.deep_view().len() && v.deep_view()[k] == x@;
            assert(v.deep_view()[k] != x@);
        }
    }
    false
}

fn dedup_names(tags: &Vec<String>) -> (r: Vec<String>)
    ensures
        r.deep_view() == crate::write::dedup(tags.deep_view()),
{
    let mut r: Vec<String> = Vec::new();
    let n = tags.len();
    let mut i: usize = 0;
    while i < n
        invariant
            n == tags@.len(),
            i <= n,
            r.deep_view() == crate::write::dedup(tags.deep_view().take(i as int)),
        decreases n - i,
    {
        let ghost prev = r.deep_view();
        if !contains_name(&r, &tags[i]) {
            r.push(tags[i].clone());
        }
        proof {
            let t1 = tags.deep_view().take(i + 1);
            assert(t1.drop_last() =~= tags.deep_view().take(i as int));
            assert(t1.last() == tags@[i as int]@);
            if prev.contains(tags@[i as int]@) {
                assert(r.deep_view() =~= crate::write::dedup(t1));
            } else {
                assert(r.deep_view() =~= prev.push(tags@[i as int]@));
                assert(r.deep_view() =~= crate::write::dedup(t1));
            }
        }
        i += 1;
    }
    proof {
        assert(tags.deep_view().take(n as int) =~= tags.deep_view());
    }
    r
}

fn count_matching_links(store: &Store, image_id: ImageId, names: &Vec<String>) -> (c: usize)
    requires
        store.wf(),
    ensures
        c as int == count_links_upto(
            store@,
            image_id as int,
            names.deep_view(),
            store@.links.len() as int,
        ),
        c <= store@.links.len(),
{
    let n = store.links.len();
    let mut c: usize = 0;
    let mut j: usize = 0;
    while j < n
        invariant
            store.wf(),
            n == store.links@.len(),
            j <= n,
            c <= j,
            c as int == count_links_upto(store@, image_id as int, names.deep_view(), j as int),
        decreases n - j,
    {
        let ghost m = store@;
        let link_image_id = store.links[j].image_id;
        let link_tag_id = store.links[j].tag_id;
        proof {
            assert(m.links[j as int] == store.links@[j as int]@);
        }
        if link_image_id == image_id {
            proof {
                assert(m.has_tag_id(link_tag_id as int));
                let w = choose|w: int|
                    0 <= w < m.tags.len() && (#[trigger] m.tags[w]).id == link_tag_id as int;
                assert((store.tags@[w])@.id == link_tag_id as int);
            }
            let name = tag_name_by_id(&store.tags, link_tag_id);
            proof {
                let k = choose|k: int|
                    0 <= k < store.tags@.len() && (#[trigger] store.tags@[k])@.id
                        == link_tag_id as int && name@ == store.tags@[k]@.name;
                assert(m.tags[k] == store.tags@[k]@);
                lemma_tag_index_by_id_unique(m, k);
                assert(name@ == m.tag_name_of(link_tag_id as int));
            }
            if contains_name(names, &name) {
                proof {
                    assert(link_matches(m, image_id as int, names.deep_view(), j as int));
                }
                c += 1;
            } else {
                proof {
                    assert(!link_matches(m, image_id as int, names.deep_view(), j as int));
                }
            }
        } else {
            proof {
                assert(!link_matches(store@, image_id as int, names.deep_view(), j as int));
            }
        }
        j += 1;
    }
    c
}

/// The identifiers of the images that are associated with every one of the
/// given tag names, found by the count-of-matches aggregation: per image,
/// the junction rows naming a distinct requested tag are counted, and the
/// image qualifies exactly when the count reaches the number of distinct
/// requested names. Repeats among the requested names are discounted, and
/// an empty request qualifies every image.
pub fn get_image_ids_that_have_all_tags(store: &Store, tags: &Vec<String>) -> (ids: Vec<ImageId>)
    requires
        store.wf(),
    ensures
        int_seq(ids@) == all_ids_upto(store@, tags.deep_view(), store@.images.len() as int),
{
    let distinct = dedup_names(tags);
    proof {
        crate::write::lemma_dedup(tags.deep_view());
    }
    let ghost names = tags.deep_view();
    let ghost d = distinct.deep_view();
    proof {
        assert(distinct@.len() == d.len());
        assert forall|a: int, b: int|
            0 <= a < d.len() && 0 <= b < d.len() && a != b implies d[a] != d[b] by {
            if a < b {
                assert(d[a] != d[b]);
            } else {
                assert(d[b] != d[a]);
            }
        }
        assert(d.no_duplicates());
    }
    let mut ids: Vec<ImageId> = Vec::new();
    let n = store.images.len();
    let mut k: usize = 0;
    while k < n
        invariant
            store.wf(),
            names == tags.deep_view(),
            d == distinct.deep_view(),
            d == crate::write::dedup(names),
            d.no_duplicates(),
            distinct@.len() == d.len(),
            n == store.images@.len(),
            k <= n,
            int_seq(ids@) == all_ids_upto(store@, names, k as int),
        decreases n - k,
    {
        let ghost m = store@;
        let ghost prev = int_seq(ids@);
        let image_id = store.images[k].id;
        proof {
            assert(m.images[k as int] == store.images@[k as int]@);
        }
        let c = count_matching_links(store, image_id, &distinct);
        proof {
            lemma_count_is_coverage(m, image_id as int, d);
            lemma_has_all_dedup(m, image_id as int, names);
        }
        if c == distinct.len() {
            ids.push(image_id);
            proof {
                assert(has_all_tags(m, image_id as int, names));
                assert(int_seq(ids@) =~= prev.push(image_id as int));
                assert(int_seq(ids@) =~= all_ids_upto(m, names, k + 1));
            }
        } else {
            proof {
                assert(!has_all_tags(m, image_id as int, names));
                assert(int_seq(ids@) =~= all_ids_upto(m, names, k + 1));
            }
        }
        k += 1;
    }
    ids
}

fn has_link_exec(store: &Store, image_id: ImageId, tid: TagId) -> (b: bool)
    ensures
        b == store@.has_link(image_id as int, tid as int),
{
    let n = store.links.len();
    let mut j: usize = 0;
    while j < n
        invariant
            n == store.links@.len(),
            j <= n,
            forall|k: int|
                0 <= k < j ==> #[trigger] store@.links[k] != (LinkModel {
                    image_id: image_id as int,
                    tag_id: tid as int,
                }),
        decreases n - j,
    {
        proof {
            assert(store@.links[j as int] == store.links@[j as int]@);
        }
        if store.links[j].image_id == image_id && store.links[j].tag_id == tid {
            proof {
                assert(store@.links[j as int] == (LinkModel {
                    image_id: image_id as int,
                    tag_id: tid as int,
                }));
            }
            return true;
        }
        j += 1;
    }
    proof {
        if store@.has_link(image_id as int, tid as int) {
            let k = choose|k: int|
                0 <= k < store@.links.len() && #[trigger] store@.links[k] == (LinkModel {
                    image_id: image_id as int,
                    tag_id: tid as int,
                });
            assert(false);
        }
    }
    false
}

fn image_has_tag_exec(store: &Store, image_id: ImageId, name: &String) -> (b: bool)
    requires
        store.wf(),
    ensures
        b == store@.image_has_tag(image_id as int, name@),
{
    match crate::store::find_tag_id_by_name(&store.tags, name) {
        Some(tid) => {
            proof {
                let m = store@;
                let k = choose|k: int|
                    0 <= k < store.tags@.len() && (#[trigger] store.tags@[k])@.name == name@
                        && store.tags@[k]@.id == tid as int;
                assert(m.tags[k] == store.tags@[k]@);
                lemma_tag_index_by_name_unique(m, k);
                assert(m.has_tag_named(name@));
                assert(m.tag_id_of(name@) == tid as int);
            }
            has_link_exec(store, image_id, tid)
        },
        None => {
            proof {
                let m = store@;
                if m.has_tag_named(name@) {
                    let k = m.tag_index_by_name(name@);
                    assert(store.tags@[k]@.name == name@);
                }
            }
            false
        },
    }
}

fn has_any_exec(store: &Store, image_id: ImageId, names: &Vec<String>) -> (b: bool)
    requires
        store.wf(),
    ensures
        b == has_any_tag(store@, image_id as int, names.deep_view()),
{
    let n = names.len();
    let mut i: usize = 0;
    while i < n
        invariant
            store.wf(),
            n == names@.len(),
            i <= n,
            forall|k: int|
                0 <= k < i ==> !store@.image_has_tag(image_id as int, #[trigger] names.deep_view()[k]),
        decreases n - i,
    {
        if image_has_tag_exec(store, image_id, &names[i]) {
            proof {
                assert(store@.image_has_tag(image_id as int, names.deep_view()[i as int]));
            }
            return true;
        }
        proof {
            assert(names.deep_view()[i as int] == names@[i as int]@);
        }
        i += 1;
    }
    proof {
        if has_any_tag(store@, image_id as int, names.deep_view()) {
            let j = choose|j: int|
                0 <= j < names.deep_view().len() && store@.image_has_tag(
                    image_id as int,
                    #[trigger] names.deep_view()[j],
                );
            assert(false);
        }
    }
    false
}

/// Answers a tag-set predicate with fully hydrated rows: every image that
/// satisfies the filter appears exactly once, in store order, joined with
/// all of its tag names. An empty requested set matches every image, in
/// both filtering forms. Reading cannot fail, so the answer is always the
/// success case.
pub fn query_images(store: &Store, tag_filter: &TagFilter) -> (r: Result<
    Vec<ImageResult>,
    ServerError,
>)
    requires
        store.wf(),
    ensures
        r matches Ok(res) && res.deep_view() == spec_query(store@, *tag_filter),
{
    let mut out: Vec<ImageResult> = Vec::new();
    let n = store.images.len();
    match tag_filter {
        TagFilter::NoFilter => {
            let mut k: usize = 0;
            while k < n
                invariant
                    store.wf(),
                    *tag_filter is NoFilter,
                    n == store.images@.len(),
                    k <= n,
                    out.deep_view() == query_upto(store@, *tag_filter, k as int),
                decreases n - k,
            {
                let ghost prev = out.deep_view();
                let res = hydrate(store, k);
                out.push(res);
                proof {
                    assert(out.deep_view() =~= prev.push(res@));
                    assert(out.deep_view() =~= query_upto(store@, *tag_filter, k + 1));
                }
                k += 1;
            }
        },
        TagFilter::ContainsSomeTags(names) => {
            let vacuous = names.is_empty();
            let mut k: usize = 0;
            while k < n
                invariant
                    store.wf(),
                    *tag_filter matches TagFilter::ContainsSomeTags(ns) && ns == *names,
                    vacuous == (names@.len() == 0),
                    n == store.images@.len(),
                    k <= n,
                    out.deep_view() == query_upto(store@, *tag_filter, k as int),
                decreases n - k,
            {
                let ghost prev = out.deep_view();
                let image_id = store.images[k].id;
                proof {
                    assert(store@.images[k as int] == store.images@[k as int]@);
                }
                let admitted = if vacuous {
                    true
                } else {
                    has_any_exec(store, image_id, names)
                };
                proof {
                    assert(admitted == admits(store@, *tag_filter, image_id as int));
                }
                if admitted {
                    let res = hydrate(store, k);
                    out.push(res);
                    proof {
                        assert(out.deep_view() =~= prev.push(res@));
                    }
                }
                proof {
                    assert(out.deep_view() =~= query_upto(store@, *tag_filter, k + 1));
                }
                k += 1;
            }
        },
        TagFilter::ContainsAllTags(names) => {
            let ids = get_image_ids_that_have_all_tags(store, names);
            let mut k: usize = 0;
            while k < n
                invariant
                    store.wf(),
                    *tag_filter matches TagFilter::ContainsAllTags(ns) && ns == *names,
                    int_seq(ids@) == all_ids_upto(
                        store@,
                        names.deep_view(),
                        store@.images.len() as int,
                    ),
                    n == store.images@.len(),
                    k <= n,
                    out.deep_view() == query_upto(store@, *tag_filter, k as int),
                decreases n - k,
            {
                let ghost m = store@;
                let ghost prev = out.deep_view();
                let image_id = store.images[k].id;
                proof {
                    assert(m.images[k as int] == store.images@[k as int]@);
                }
                let admitted = contains_id(&ids, image_id);
                proof {
                    lemma_all_ids_contains(
                        m,
                        names.deep_view(),
                        m.images.len() as int,
                        image_id as int,
                    );
                    if admitted {
                        assert(has_all_tags(m, image_id as int, names.deep_view()));
                    } else {
                        assert(!has_all_tags(m, image_id as int, names.deep_view())) by {
                            if has_all_tags(m, image_id as int, names.deep_view()) {
                                assert(m.images[k as int].id == image_id as int);
                                assert(int_seq(ids@).contains(image_id as int));
                            }
                        }
                    }
                    assert(admitted == admits(m, *tag_filter, image_id as int));
                }
                if admitted {
                    let res = hydrate(store, k);
                    out.push(res);
                    proof {
                        assert(out.deep_view() =~= prev.push(res@));
                    }
                }
                proof {
                    assert(out.deep_view() =~= query_upto(store@, *tag_filter, k + 1));
                }
                k += 1;
            }
        },
    }
    proof {
        assert(out.deep_view() == query_upto(store@, *tag_filter, store@.images.len() as int));
    }
    Ok(out)
}

/// With no filter, the answer over the first `n` images is one hydrated
/// row per image, in order.
proof fn lemma_query_upto_no_filter(m: StoreModel, n: int)
    requires
        0 <= n <= m.images.len(),
    ensures
        query_upto(m, TagFilter::NoFilter, n).len() == n,
        forall|k: int|
            0 <= k < n ==> query_upto(m, TagFilter::NoFilter, n)[k] == result_of(
                m,
                #[trigger] m.images[k],
            ),
    decreases n,
{
    if n > 0 {
        lemma_query_upto_no_filter(m, n - 1);
    }
}

/// No-filter completeness: querying without a predicate returns every
/// image exactly once — one row per image, in store order, with distinct
/// identifiers — each joined with its complete tag-name list.
pub proof fn lemma_no_filter_complete(m: StoreModel)
    requires
        m.wf(),
    ensures
        spec_query(m, TagFilter::NoFilter).len() == m.images.len(),
        forall|k: int|
            0 <= k < m.images.len() ==> spec_query(m, TagFilter::NoFilter)[k] == result_of(
                m,
                #[trigger] m.images[k],
            ),
        forall|k: int, l: int|
            #![trigger spec_query(m, TagFilter::NoFilter)[k], spec_query(m, TagFilter::NoFilter)[l]]
            0 <= k < l < m.images.len() ==> spec_query(m, TagFilter::NoFilter)[k].id != spec_query(
                m,
                TagFilter::NoFilter,
            )[l].id,
{
    lemma_query_upto_no_filter(m, m.images.len() as int);
    assert forall|k: int, l: int|
        #![trigger spec_query(m, TagFilter::NoFilter)[k], spec_query(m, TagFilter::NoFilter)[l]]
        0 <= k < l < m.images.len() implies spec_query(m, TagFilter::NoFilter)[k].id
        != spec_query(m, TagFilter::NoFilter)[l].id by {
        assert(m.images[k].id != m.images[l].id);
    }
}

proof fn lemma_query_upto_membership(m: StoreModel, filter: TagFilter, n: int, x: int)
    requires
        0 <= n <= m.images.len(),
    ensures
        (exists|j: int|
            0 <= j < query_upto(m, filter, n).len() && (#[trigger] query_upto(m, filter, n)[j]).id
                == x) <==> (exists|k: int|
            0 <= k < n && (#[trigger] m.images[k]).id == x && admits(m, filter, x)),
    decreases n,
{
    if n > 0 {
        lemma_query_upto_membership(m, filter, n - 1, x);
        let prefix = query_upto(m, filter, n - 1);
        let cur = query_upto(m, filter, n);
        if exists|j: int| 0 <= j < cur.len() && (#[trigger] cur[j]).id == x {
            let j = choose|j: int| 0 <= j < cur.len() && (#[trigger] cur[j]).id == x;
            if j < prefix.len() {
                assert(prefix[j] == cur[j]);
            } else {
                assert(m.images[n - 1].id == x);
            }
        }
        if exists|k: int| 0 <= k < n && (#[trigger] m.images[k]).id == x && admits(m, filter, x) {
            let k = choose|k: int|
                0 <= k < n && (#[trigger] m.images[k]).id == x && admits(m, filter, x);
            if k < n - 1 {
                let j = choose|j: int| 0 <= j < prefix.len() && (#[trigger] prefix[j]).id == x;
                assert(cur[j].id == x);
            } else {
                assert(cur[cur.len() - 1].id == x);
            }
        }
    }
}

/// Predicate correctness: the query answer holds a row with identifier
/// `x` exactly when some image row carries `x` and satisfies the filter —
/// so the any-of form returns precisely the images having at least one
/// requested tag, and the all-of form precisely those covering all of
/// them.
pub proof fn lemma_query_membership(m: StoreModel, filter: TagFilter, x: int)
    ensures
        (exists|j: int|
            0 <= j < spec_query(m, filter).len() && (#[trigger] spec_query(m, filter)[j]).id == x)
            <==> (exists|k: int|
            0 <= k < m.images.len() && (#[trigger] m.images[k]).id == x && admits(m, filter, x)),
{
    let n = m.images.len() as int;
    lemma_query_upto_membership(m, filter, n, x);
    let full = query_upto(m, filter, n);
    if exists|j: int|
        0 <= j < spec_query(m, filter).len() && (#[trigger] spec_query(m, filter)[j]).id == x {
        let j = choose|j: int|
            0 <= j < spec_query(m, filter).len() && (#[trigger] spec_query(m, filter)[j]).id == x;
        assert(full[j].id == x);
    }
    if exists|j: int| 0 <= j < full.len() && (#[trigger] full[j]).id == x {
        let j = choose|j: int| 0 <= j < full.len() && (#[trigger] full[j]).id == x;
        assert(spec_query(m, filter)[j].id == x);
    }
}

} // verus!