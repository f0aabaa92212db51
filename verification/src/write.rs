//! The atomic image-creation operation: resolve every tag name, insert the
//! image row, link the tags through the junction relation, and — when the
//! image arrived as raw data — patch the row's URL once the external store
//! has produced one. All of it happens inside one transactional scope, so
//! any failure at any step leaves the catalog exactly as it was.

use vstd::prelude::*;
use crate::error::ErrorKind;
use crate::error::ServerError;
use crate::requests::ImageInput;
use crate::store::add_links_state;
use crate::store::insert_row_state;
use crate::store::int_seq;
use crate::store::lemma_insert_row_wf;
use crate::store::lemma_resolve_tag_wf;
use crate::store::contains_id;
use crate::store::lemma_same_tag_ids;
use crate::store::resolve_id;
use crate::store::resolve_ok;
use crate::store::resolve_state;
use crate::store::ImageId;
use crate::store::Store;
use crate::store::StoreModel;
use crate::store::TagId;
use crate::store::Txn;
use crate::text::dec_digits;
use crate::text::append_decimal;

verus! {

/// The items of `tags` joined by a comma and a space, in order.
pub open spec fn comma_joined(tags: Seq<Seq<char>>) -> Seq<char>
    decreases tags.len(),
{
    if tags.len() == 0 {
        Seq::empty()
    } else if tags.len() == 1 {
        tags[0]
    } else {
        comma_joined(tags.drop_last()) + ", "@ + tags.last()
    }
}

/// The label synthesized from a list of tag names: a fixed text for an
/// empty list, else the names comma-separated inside a fixed sentence.
pub open spec fn generate_label_spec(tags: Seq<Seq<char>>) -> Seq<char> {
    if tags.len() == 0 {
        "An untagged image"@
    } else {
        "An image containing "@ + comma_joined(tags) + "."@
    }
}

/// Generates a label from a list of tags by separating them with commas;
/// an empty list gives the fixed untagged label.
pub fn generate_label(tags: &Vec<String>) -> (r: String)
    ensures
        r@ == generate_label_spec(tags.deep_view()),
{
    if tags.is_empty() {
        return String::from_str("An untagged image");
    }
    let mut list = String::new();
    let n = tags.len();
    let mut i: usize = 0;
    while i < n
        invariant
            n == tags@.len(),
            1 <= n,
            i <= n,
            i == 0 ==> list@ == Seq::<char>::empty(),
            i >= 1 ==> list@ == comma_joined(tags.deep_view().take(i as int)),
        decreases n - i,
    {
        if i > 0 {
            list.append(", ");
        }
        list.append(tags[i].as_str());
        proof {
            let dv = tags.deep_view();
            assert(dv.take(i + 1).drop_last() =~= dv.take(i as int));
            assert(dv.take(i + 1).last() == tags@[i as int]@);
            assert(list@ =~= comma_joined(dv.take(i + 1)));
        }
        i += 1;
    }
    let mut r = String::from_str("An image containing ");
    r.append(list.as_str());
    r.append(".");
    proof {
        assert(tags.deep_view().take(n as int) =~= tags.deep_view());
        assert(r@ =~= generate_label_spec(tags.deep_view()));
    }
    r
}

/// The label an insertion stores: the caller's when present, else the one
/// synthesized from the tag names.
pub open spec fn chosen_label(label: Option<Seq<char>>, tags: Seq<Seq<char>>) -> Seq<char> {
    match label {
        Some(l) => l,
        None => generate_label_spec(tags),
    }
}

fn effective_label(label: &Option<String>, tags: &Vec<String>) -> (r: String)
    ensures
        r@ == chosen_label(label.deep_view(), tags.deep_view()),
{
    match label {
        Some(l) => l.clone(),
        None => generate_label(tags),
    }
}

/// `s` with every repeated element removed, keeping first occurrences in
/// order.
pub open spec fn dedup<A>(s: Seq<A>) -> Seq<A>
    decreases s.len(),
{
    if s.len() == 0 {
        Seq::empty()
    } else {
        let rest = dedup(s.drop_last());
        if rest.contains(s.last()) {
            rest
        } else {
            rest.push(s.last())
        }
    }
}

/// Deduplication keeps exactly the elements of `s`, each once.
pub proof fn lemma_dedup<A>(s: Seq<A>)
    ensures
        forall|x: A| #[trigger] dedup(s).contains(x) <==> s.contains(x),
        forall|j: int, l: int|
            #![trigger dedup(s)[j], dedup(s)[l]]
            0 <= j < l < dedup(s).len() ==> dedup(s)[j] != dedup(s)[l],
        dedup(s).len() <= s.len(),
    decreases s.len(),
{
    if s.len() > 0 {
        lemma_dedup(s.drop_last());
        let rest = dedup(s.drop_last());
        let d = dedup(s);
        assert forall|x: A| #[trigger] d.contains(x) <==> s.contains(x) by {
            assert(s.drop_last().push(s.last()) =~= s);
            if d.contains(x) {
                let j = choose|j: int| 0 <= j < d.len() && d[j] == x;
                if rest.contains(x) || x == s.last() {
                    if rest.contains(x) {
                        assert(s.drop_last().contains(x));
                        let k = choose|k: int|
                            0 <= k < s.drop_last().len() && s.drop_last()[k] == x;
                        assert(s[k] == x);
                    } else {
                        assert(s[s.len() - 1] == x);
                    }
                }
            }
            if s.contains(x) {
                let k = choose|k: int| 0 <= k < s.len() && s[k] == x;
                if k < s.len() - 1 {
                    assert(s.drop_last()[k] == x);
                    assert(s.drop_last().contains(x));
                    assert(rest.contains(x));
                    let j = choose|j: int| 0 <= j < rest.len() && rest[j] == x;
                    assert(d.contains(x)) by {
                        if rest.contains(s.last()) {
                            assert(d == rest);
                        } else {
                            assert(d[j] == x);
                        }
                    }
                } else {
                    assert(x == s.last());
                    if rest.contains(x) {
                        let j = choose|j: int| 0 <= j < rest.len() && rest[j] == x;
                        assert(d[j] == x);
                    } else {
                        assert(d[d.len() - 1] == x);
                    }
                }
            }
        }
    }
}

/// Resolving the whole list of names succeeds.
pub open spec fn resolve_all_ok(m: StoreModel, names: Seq<Seq<char>>) -> bool
    decreases names.len(),
{
    if names.len() == 0 {
        true
    } else {
        resolve_all_ok(m, names.drop_last()) && resolve_ok(
            resolve_all_state(m, names.drop_last()),
            names.last(),
        )
    }
}

/// The store after resolving every name in order.
pub open spec fn resolve_all_state(m: StoreModel, names: Seq<Seq<char>>) -> StoreModel
    decreases names.len(),
{
    if names.len() == 0 {
        m
    } else {
        resolve_state(resolve_all_state(m, names.drop_last()), names.last())
    }
}

/// The identifiers the resolutions return, one per name in order;
/// duplicate names resolve to the same identifier.
pub open spec fn resolve_all_ids(m: StoreModel, names: Seq<Seq<char>>) -> Seq<int>
    decreases names.len(),
{
    if names.len() == 0 {
        Seq::empty()
    } else {
        resolve_all_ids(m, names.drop_last()).push(
            resolve_id(resolve_all_state(m, names.drop_last()), names.last()),
        )
    }
}

/// Resolving a list of names only appends tag rows: images, junction rows
/// and the image counter are untouched, the old tag rows keep their place,
/// and every returned identifier names a live tag row afterwards.
pub proof fn lemma_resolve_all(m: StoreModel, names: Seq<Seq<char>>)
    requires
        m.wf(),
        resolve_all_ok(m, names),
    ensures
        resolve_all_state(m, names).wf(),
        resolve_all_state(m, names).images == m.images,
        resolve_all_state(m, names).links == m.links,
        resolve_all_state(m, names).next_image_id == m.next_image_id,
        m.tags.len() <= resolve_all_state(m, names).tags.len(),
        forall|w: int|
            0 <= w < m.tags.len() ==> resolve_all_state(m, names).tags[w] == (#[trigger] m.tags[w]),
        resolve_all_ids(m, names).len() == names.len(),
        forall|j: int|
            0 <= j < names.len() ==> resolve_all_state(m, names).has_tag_id(
                #[trigger] resolve_all_ids(m, names)[j],
            ),
    decreases names.len(),
{
    if names.len() > 0 {
        let prefix = names.drop_last();
        lemma_resolve_all(m, prefix);
        let mp = resolve_all_state(m, prefix);
        lemma_resolve_tag_wf(mp, names.last());
        let m1 = resolve_all_state(m, names);
        let ids = resolve_all_ids(m, names);
        let prev = resolve_all_ids(m, prefix);
        assert forall|j: int| 0 <= j < names.len() implies m1.has_tag_id(
            #[trigger] ids[j],
        ) by {
            if j < names.len() - 1 {
                assert(ids[j] == prev[j]);
                assert(mp.has_tag_id(prev[j]));
                lemma_same_tag_ids(mp, m1, prev[j]);
            } else {
                assert(ids[j] == resolve_id(mp, names.last()));
            }
        }
    }
}

/// After resolving a list of names, each name's row is live and carries
/// the identifier its resolution returned.
proof fn lemma_resolve_all_names(m: StoreModel, names: Seq<Seq<char>>)
    requires
        m.wf(),
        resolve_all_ok(m, names),
    ensures
        forall|j: int|
            0 <= j < names.len() ==> resolve_all_state(m, names).has_tag_named(
                #[trigger] names[j],
            ) && resolve_all_state(m, names).tag_id_of(names[j]) == resolve_all_ids(m, names)[j],
    decreases names.len(),
{
    if names.len() > 0 {
        let prefix = names.drop_last();
        lemma_resolve_all(m, prefix);
        lemma_resolve_all_names(m, prefix);
        let mp = resolve_all_state(m, prefix);
        lemma_resolve_tag_wf(mp, names.last());
        let m1 = resolve_all_state(m, names);
        let ids = resolve_all_ids(m, names);
        assert forall|j: int| 0 <= j < names.len() implies m1.has_tag_named(#[trigger] names[j])
            && m1.tag_id_of(names[j]) == ids[j] by {
            if j < names.len() - 1 {
                assert(prefix[j] == names[j]);
                assert(mp.has_tag_named(prefix[j]));
                assert(mp.tag_id_of(names[j]) == resolve_all_ids(m, prefix)[j]);
                assert(ids[j] == resolve_all_ids(m, prefix)[j]);
                let kp = mp.tag_index_by_name(names[j]);
                assert(0 <= kp < mp.tags.len() && mp.tags[kp].name == names[j]);
                crate::store::lemma_tag_index_by_name_unique(mp, kp);
                assert(m1.tags[kp] == mp.tags[kp]);
                crate::store::lemma_tag_index_by_name_unique(m1, kp);
            } else {
                assert(m1.tag_id_of(names.last()) == resolve_id(mp, names.last()));
            }
        }
    }
}

/// Duplicate occurrences of one name in the input resolve to the same tag
/// identifier: the resolver never hands out two identifiers for one name
/// within one operation.
pub proof fn lemma_duplicate_names_same_id(m: StoreModel, names: Seq<Seq<char>>)
    requires
        m.wf(),
        resolve_all_ok(m, names),
    ensures
        forall|j: int, l: int|
            #![trigger resolve_all_ids(m, names)[j], resolve_all_ids(m, names)[l]]
            0 <= j < names.len() && 0 <= l < names.len() && names[j] == names[l]
                ==> resolve_all_ids(m, names)[j] == resolve_all_ids(m, names)[l],
{
    lemma_resolve_all(m, names);
    lemma_resolve_all_names(m, names);
}

/// Success on a list of names implies success on every prefix.
pub proof fn lemma_resolve_all_ok_prefix(m: StoreModel, names: Seq<Seq<char>>, k: int)
    requires
        resolve_all_ok(m, names),
        0 <= k <= names.len(),
    ensures
        resolve_all_ok(m, names.take(k)),
    decreases names.len(),
{
    if k == names.len() {
        assert(names.take(k) =~= names);
    } else {
        assert(names.drop_last().take(k) =~= names.take(k));
        lemma_resolve_all_ok_prefix(m, names.drop_last(), k);
    }
}

/// The whole insertion succeeds: every resolution succeeds and a fresh
/// image identifier can still be assigned.
pub open spec fn insert_image_ok(m: StoreModel, names: Seq<Seq<char>>) -> bool {
    resolve_all_ok(m, names) && m.next_image_id < i32::MAX
}

/// The identifier assigned to the inserted image.
pub open spec fn insert_image_id(m: StoreModel) -> int {
    m.next_image_id
}

/// The store after the whole insertion: the missing tags created, the
/// image row added with its chosen label and `url`, and one junction row
/// per distinct resolved tag identifier.
pub open spec fn insert_image_state(
    m: StoreModel,
    names: Seq<Seq<char>>,
    label: Option<Seq<char>>,
    url: Seq<char>,
) -> StoreModel {
    let resolved = resolve_all_state(m, names);
    let with_row = insert_row_state(resolved, chosen_label(label, names), url);
    add_links_state(with_row, m.next_image_id, dedup(resolve_all_ids(m, names)))
}

/// The URL an insertion stores at first: the caller's URL when one was
/// supplied, else a placeholder, because the real URL can only be derived
/// from the image's own identifier once that is known.
pub open spec fn input_url(input: ImageInput) -> Seq<char> {
    match input {
        ImageInput::ImageUrl(u) => u@,
        ImageInput::ImageBase64(_) => "temporary"@,
    }
}

/// The raw payload of an input, empty for a ready URL.
pub open spec fn input_data(input: ImageInput) -> Seq<char> {
    match input {
        ImageInput::ImageUrl(_) => Seq::empty(),
        ImageInput::ImageBase64(d) => d@,
    }
}

/// An insertion that still awaits the external store: the open scope with
/// every row already drafted, the assigned identifier, and the raw data to
/// hand to the upload collaborator. Dropping it rolls everything back.
pub struct PendingImage {
    pub txn: Txn,
    pub image_id: ImageId,
    pub data: String,
}

/// What an accepted insertion produced: either a committed image, or a
/// drafted one awaiting the upload collaborator's URL.
pub enum InsertOutcome {
    Committed(ImageId),
    AwaitingUpload(PendingImage),
}

fn dedup_ids(ids: &Vec<TagId>) -> (r: Vec<TagId>)
    ensures
        int_seq(r@) == dedup(int_seq(ids@)),
{
    let mut r: Vec<TagId> = Vec::new();
    let n = ids.len();
    let mut i: usize = 0;
    while i < n
        invariant
            n == ids@.len(),
            i <= n,
            int_seq(r@) == dedup(int_seq(ids@.take(i as int))),
        decreases n - i,
    {
        let ghost prev = int_seq(r@);
        let x = ids[i];
        if !contains_id(&r, x) {
            r.push(x);
        }
        proof {
            let t1 = int_seq(ids@.take(i + 1));
            assert(t1.drop_last() =~= int_seq(ids@.take(i as int)));
            assert(t1.last() == x as int);
            if prev.contains(x as int) {
                assert(int_seq(r@) =~= dedup(t1));
            } else {
                assert(int_seq(r@) =~= prev.push(x as int));
                assert(int_seq(r@) =~= dedup(t1));
            }
        }
        i += 1;
    }
    proof {
        assert(ids@.take(n as int) =~= ids@);
    }
    r
}

/// Inserts an image and its tags as one atomic unit of work.
///
/// Every name in `tags` is resolved to a tag identifier — creating the
/// missing tags inside the transactional scope — then the image row is
/// inserted and one junction row added per distinct resolved identifier.
/// For a ready URL the scope commits here and the new identifier is
/// returned. For raw data the drafted scope is handed back instead: the
/// row holds a placeholder URL, and the caller completes the operation
/// with [`complete_image_upload`] once the upload collaborator has stored
/// the data, or drops the draft if the upload failed — the store is
/// untouched either way. A store failure at any step aborts the whole
/// operation with nothing written.
pub fn execute_insert_image(
    store: &mut Store,
    image_input: ImageInput,
    tags: Vec<String>,
    label: Option<String>,
) -> (r: Result<InsertOutcome, ServerError>)
    requires
        old(store).wf(),
    ensures
        match r {
            Ok(out) => {
                &&& insert_image_ok(old(store)@, tags.deep_view())
                &&& match out {
                    InsertOutcome::Committed(id) => {
                        &&& !(image_input is ImageBase64)
                        &&& final(store)@ == insert_image_state(
                            old(store)@,
                            tags.deep_view(),
                            label.deep_view(),
                            input_url(image_input),
                        )
                        &&& final(store).wf()
                        &&& id as int == insert_image_id(old(store)@)
                    },
                    InsertOutcome::AwaitingUpload(p) => {
                        &&& image_input is ImageBase64
                        &&& final(store)@ == old(store)@
                        &&& p.txn@ == insert_image_state(
                            old(store)@,
                            tags.deep_view(),
                            label.deep_view(),
                            input_url(image_input),
                        )
                        &&& p.txn@.wf()
                        &&& p.image_id as int == insert_image_id(old(store)@)
                        &&& p.txn@.has_image_id(p.image_id as int)
                        &&& p.data@ == input_data(image_input)
                    },
                }
            },
            Err(e) => {
                &&& final(store)@ == old(store)@
                &&& !insert_image_ok(old(store)@, tags.deep_view())
                &&& e.kind == ErrorKind::StoreFailure
            },
        },
{
    let ghost m0 = store@;
    let ghost names = tags.deep_view();
    let mut txn = store.begin();
    let mut tag_ids: Vec<TagId> = Vec::new();
    let n = tags.len();
    let mut i: usize = 0;
    while i < n
        invariant
            old(store).wf(),
            m0 == old(store)@,
            names == tags.deep_view(),
            n == tags@.len(),
            i <= n,
            txn@.wf(),
            resolve_all_ok(m0, names.take(i as int)),
            txn@ == resolve_all_state(m0, names.take(i as int)),
            int_seq(tag_ids@) == resolve_all_ids(m0, names.take(i as int)),
        decreases n - i,
    {
        let ghost prefix = names.take(i as int);
        let name = &tags[i];
        proof {
            assert(names.take(i + 1).drop_last() =~= prefix);
            assert(names.take(i + 1).last() == name@);
        }
        match txn.resolve_tag(name) {
            Ok(tid) => {
                tag_ids.push(tid);
                proof {
                    assert(resolve_all_ok(m0, names.take(i + 1)));
                    assert(txn@ == resolve_all_state(m0, names.take(i + 1)));
                    assert(int_seq(tag_ids@) =~= resolve_all_ids(m0, names.take(i + 1)));
                }
            },
            Err(e) => {
                proof {
                    if resolve_all_ok(m0, names) {
                        lemma_resolve_all_ok_prefix(m0, names, i + 1);
                    }
                }
                return Err(ServerError::from(e));
            },
        }
        i += 1;
    }
    proof {
        assert(names.take(n as int) =~= names);
    }
    let url = match &image_input {
        ImageInput::ImageUrl(u) => u.clone(),
        ImageInput::ImageBase64(_) => String::from_str("temporary"),
    };
    let lbl = effective_label(&label, &tags);
    let ghost resolved = txn@;
    proof {
        lemma_resolve_all(m0, names);
    }
    let image_id = match txn.insert_image_row(lbl, url) {
        Ok(id) => id,
        Err(e) => {
            return Err(ServerError::from(e));
        },
    };
    let ghost with_row = txn@;
    proof {
        lemma_insert_row_wf(resolved, chosen_label(label.deep_view(), names), input_url(image_input));
    }
    let distinct = dedup_ids(&tag_ids);
    proof {
        lemma_dedup(int_seq(tag_ids@));
        let d = int_seq(distinct@);
        assert forall|j: int|
            0 <= j < distinct@.len() implies with_row.has_tag_id(
            (#[trigger] distinct@[j]) as int,
        ) by {
            assert(d[j] == distinct@[j] as int);
            assert(d.contains(d[j]));
            assert(int_seq(tag_ids@).contains(d[j]));
            let k = choose|k: int|
                0 <= k < int_seq(tag_ids@).len() && int_seq(tag_ids@)[k] == d[j];
            assert(resolve_all_ids(m0, names)[k] == d[j]);
            assert(resolved.has_tag_id(d[j]));
            lemma_same_tag_ids(resolved, with_row, d[j]);
        }
        assert forall|j: int, l: int|
            #![trigger distinct@[j], distinct@[l]]
            0 <= j < l < distinct@.len() implies distinct@[j] != distinct@[l] by {
            assert(d[j] == distinct@[j] as int);
            assert(d[l] == distinct@[l] as int);
        }
        assert forall|j: int|
            0 <= j < distinct@.len() implies !with_row.has_link(
            image_id as int,
            (#[trigger] distinct@[j]) as int,
        ) by {
            assert(!resolved.has_link(image_id as int, distinct@[j] as int));
            if with_row.has_link(image_id as int, distinct@[j] as int) {
                let k = choose|k: int|
                    0 <= k < with_row.links.len() && #[trigger] with_row.links[k]
                        == (crate::store::LinkModel {
                        image_id: image_id as int,
                        tag_id: distinct@[j] as int,
                    });
                assert(resolved.links[k] == with_row.links[k]);
            }
        }
    }
    txn.insert_links(image_id, &distinct);
    proof {
        assert(txn@ == insert_image_state(m0, names, label.deep_view(), input_url(image_input)));
    }
    match image_input {
        ImageInput::ImageUrl(_) => {
            txn.commit(store);
            Ok(InsertOutcome::Committed(image_id))
        },
        ImageInput::ImageBase64(data) => {
            proof {
                crate::store::lemma_same_image_ids(with_row, txn@, image_id as int);
            }
            Ok(
                InsertOutcome::AwaitingUpload(
                    PendingImage { txn, image_id, data },
                ),
            )
        },
    }
}

/// Finishes an insertion that awaited the upload collaborator: the drafted
/// image row's placeholder URL is replaced by `final_url`, and the scope
/// commits. Only now does anything become observable in the store.
pub fn complete_image_upload(store: &mut Store, pending: PendingImage, final_url: String) -> (r:
    ImageId)
    requires
        pending.txn@.wf(),
        pending.txn@.has_image_id(pending.image_id as int),
    ensures
        final(store)@ == crate::store::patch_url_state(
            pending.txn@,
            pending.image_id as int,
            final_url@,
        ),
        final(store).wf(),
        r == pending.image_id,
{
    let PendingImage { mut txn, image_id, data: _ } = pending;
    proof {
        crate::store::lemma_patch_url_wf(txn@, image_id as int, final_url@);
    }
    txn.update_image_url(image_id, final_url);
    txn.commit(store);
    image_id
}

/// The URL under which an uploaded image is served, derived from the
/// image's own identifier.
pub open spec fn upload_url_spec(id: int) -> Seq<char> {
    "http://localhost:3000/files/"@ + dec_digits(id) + ".png"@
}

/// Builds the URL under which the upload collaborator serves the stored
/// image with this identifier.
pub fn upload_url(image_id: ImageId) -> (r: String)
    requires
        image_id >= 0,
    ensures
        r@ == upload_url_spec(image_id as int),
{
    let mut r = String::from_str("http://localhost:3000/files/");
    append_decimal(&mut r, image_id as u32);
    r.append(".png");
    proof {
        assert(r@ =~= upload_url_spec(image_id as int));
    }
    r
}

/// URL patch-after-create: completing a raw-data insertion with the
/// upload collaborator's URL for the assigned identifier leaves the
/// stored row's URL exactly that URL — which embeds the identifier's
/// decimal digits — and never the placeholder that the draft held.
pub proof fn lemma_url_patch_after_create(
    m: StoreModel,
    names: Seq<Seq<char>>,
    label: Option<Seq<char>>,
)
    requires
        m.wf(),
        insert_image_ok(m, names),
    ensures
        ({
            let id = insert_image_id(m);
            let drafted = insert_image_state(m, names, label, "temporary"@);
            let committed = crate::store::patch_url_state(drafted, id, upload_url_spec(id));
            &&& drafted.wf()
            &&& drafted.has_image_id(id)
            &&& committed.wf()
            &&& committed.has_image_id(id)
            &&& committed.image_at(id).url == upload_url_spec(id)
            &&& committed.image_at(id).url != "temporary"@
        }),
{
    let id = insert_image_id(m);
    let url = "temporary"@;
    let chosen = chosen_label(label, names);
    lemma_resolve_all(m, names);
    let resolved = resolve_all_state(m, names);
    lemma_insert_row_wf(resolved, chosen, url);
    let with_row = insert_row_state(resolved, chosen, url);
    let all_ids = resolve_all_ids(m, names);
    let ids = dedup(all_ids);
    lemma_dedup(all_ids);
    assert forall|j: int| 0 <= j < ids.len() implies with_row.has_tag_id(#[trigger] ids[j]) by {
        assert(ids.contains(ids[j]));
        assert(all_ids.contains(ids[j]));
        let k = choose|k: int| 0 <= k < all_ids.len() && all_ids[k] == ids[j];
        assert(resolved.has_tag_id(all_ids[k]));
        lemma_same_tag_ids(resolved, with_row, ids[j]);
    }
    assert forall|j: int| 0 <= j < ids.len() implies !with_row.has_link(
        id,
        #[trigger] ids[j],
    ) by {
        assert(!resolved.has_link(id, ids[j]));
        if with_row.has_link(id, ids[j]) {
            let k = choose|k: int|
                0 <= k < with_row.links.len() && #[trigger] with_row.links[k]
                    == (crate::store::LinkModel { image_id: id, tag_id: ids[j] });
            assert(resolved.links[k] == with_row.links[k]);
        }
    }
    crate::store::lemma_add_links_wf(with_row, id, ids);
    let drafted = insert_image_state(m, names, label, url);
    crate::store::lemma_same_image_ids(with_row, drafted, id);
    crate::store::lemma_patch_url_wf(drafted, id, upload_url_spec(id));
    reveal_strlit("temporary");
    reveal_strlit("http://localhost:3000/files/");
    reveal_strlit(".png");
    crate::text::lemma_dec_digits_len(id);
    assert(upload_url_spec(id).len() >= 33);
    assert("temporary"@.len() == 9);
}

} // verus!
