//! The entities of the directory: entries, categories, tags, users,
//! comments, ratings, bounding-box subscriptions, and the typed
//! subject-predicate-object facts ("triples") that relate them.
//!
//! Every entity has a mathematical view (`...View`) over sequences of
//! characters and plain values; all contracts are stated over these views.

use vstd::prelude::*;

use crate::geo::Degrees;

verus! {

/// The aspect of an entry that a rating judges.
#[derive(Clone, Copy, Debug, PartialEq, Eq, Structural)]
pub enum RatingContext {
    Diversity,
    Renewable,
    Fairness,
    Humanity,
    Transparency,
    Solidarity,
}

/// A reference to an entity of a given kind; used only as the subject or
/// object of a relation, never owning the entity itself.
#[derive(Debug)]
pub enum ObjectId {
    Entry(String),
    Tag(String),
    User(String),
    Comment(String),
    Rating(String),
    BboxSubscription(String),
}

/// The mathematical view of an [`ObjectId`].
pub enum ObjectIdView {
    Entry(Seq<char>),
    Tag(Seq<char>),
    User(Seq<char>),
    Comment(Seq<char>),
    Rating(Seq<char>),
    BboxSubscription(Seq<char>),
}

impl View for ObjectId {
    type V = ObjectIdView;

    open spec fn view(&self) -> ObjectIdView {
        match self {
            ObjectId::Entry(id) => ObjectIdView::Entry(id@),
            ObjectId::Tag(id) => ObjectIdView::Tag(id@),
            ObjectId::User(id) => ObjectIdView::User(id@),
            ObjectId::Comment(id) => ObjectIdView::Comment(id@),
            ObjectId::Rating(id) => ObjectIdView::Rating(id@),
            ObjectId::BboxSubscription(id) => ObjectIdView::BboxSubscription(id@),
        }
    }
}

impl DeepView for ObjectId {
    type V = ObjectIdView;

    open spec fn deep_view(&self) -> ObjectIdView {
        self.view()
    }
}

impl Clone for ObjectId {
    fn clone(&self) -> (res: Self)
        ensures
            res@ == self@,
    {
        match self {
            ObjectId::Entry(id) => ObjectId::Entry(id.clone()),
            ObjectId::Tag(id) => ObjectId::Tag(id.clone()),
            ObjectId::User(id) => ObjectId::User(id.clone()),
            ObjectId::Comment(id) => ObjectId::Comment(id.clone()),
            ObjectId::Rating(id) => ObjectId::Rating(id.clone()),
            ObjectId::BboxSubscription(id) => ObjectId::BboxSubscription(id.clone()),
        }
    }
}

/// The predicate of a triple. By convention each predicate only ever
/// stands between a specific pair of entity kinds (for example
/// `IsRatedWith`: entry to rating); the store does not enforce this
/// statically.
#[derive(Clone, Copy, Debug, PartialEq, Eq, Structural)]
pub enum Relation {
    IsTaggedWith,
    IsCommentedWith,
    CreatedBy,
    SubscribedTo,
    IsRatedWith,
}

/// One fact of the relation graph. Triples are immutable; relationships
/// change by adding or deleting whole triples. Identity is derived from
/// the three fields (see [`triple_id`]): two triples with identical fields
/// are the same fact.
#[derive(Debug)]
pub struct Triple {
    pub subject: ObjectId,
    pub predicate: Relation,
    pub object: ObjectId,
}

/// The mathematical view of a [`Triple`].
pub struct TripleView {
    pub subject: ObjectIdView,
    pub predicate: Relation,
    pub object: ObjectIdView,
}

impl View for Triple {
    type V = TripleView;

    open spec fn view(&self) -> TripleView {
        TripleView { subject: self.subject@, predicate: self.predicate, object: self.object@ }
    }
}

impl DeepView for Triple {
    type V = TripleView;

    open spec fn deep_view(&self) -> TripleView {
        self.view()
    }
}

impl Clone for Triple {
    fn clone(&self) -> (res: Self)
        ensures
            res@ == self@,
    {
        Triple {
            subject: self.subject.clone(),
            predicate: self.predicate,
            object: self.object.clone(),
        }
    }
}

/// The kind word that names an object-id variant inside a triple id.
pub open spec fn object_kind_str(o: ObjectIdView) -> Seq<char> {
    match o {
        ObjectIdView::Entry(_) => "entry"@,
        ObjectIdView::Tag(_) => "tag"@,
        ObjectIdView::User(_) => "user"@,
        ObjectIdView::Comment(_) => "comment"@,
        ObjectIdView::Rating(_) => "rating"@,
        ObjectIdView::BboxSubscription(_) => "bbox_subscription"@,
    }
}

/// The id string carried by an object id.
pub open spec fn object_id_str(o: ObjectIdView) -> Seq<char> {
    match o {
        ObjectIdView::Entry(id) => id,
        ObjectIdView::Tag(id) => id,
        ObjectIdView::User(id) => id,
        ObjectIdView::Comment(id) => id,
        ObjectIdView::Rating(id) => id,
        ObjectIdView::BboxSubscription(id) => id,
    }
}

/// The word that names a predicate inside a triple id.
pub open spec fn relation_str(r: Relation) -> Seq<char> {
    match r {
        Relation::IsTaggedWith => "is_tagged_with"@,
        Relation::IsCommentedWith => "is_commented_with"@,
        Relation::CreatedBy => "created_by"@,
        Relation::SubscribedTo => "subscribed_to"@,
        Relation::IsRatedWith => "is_rated_with"@,
    }
}

/// The deterministic identity of a triple: the concatenation of the
/// subject's kind and id, the predicate's name, and the object's kind and
/// id, joined by `-`.
pub open spec fn triple_id_str(t: TripleView) -> Seq<char> {
    object_kind_str(t.subject) + "-"@ + object_id_str(t.subject) + "-"@ + relation_str(
        t.predicate,
    ) + "-"@ + object_kind_str(t.object) + "-"@ + object_id_str(t.object)
}

fn object_parts(o: &ObjectId) -> (r: (&'static str, &String))
    ensures
        r.0@ == object_kind_str(o@),
        r.1@ == object_id_str(o@),
{
    match o {
        ObjectId::Entry(id) => ("entry", id),
        ObjectId::Tag(id) => ("tag", id),
        ObjectId::User(id) => ("user", id),
        ObjectId::Comment(id) => ("comment", id),
        ObjectId::Rating(id) => ("rating", id),
        ObjectId::BboxSubscription(id) => ("bbox_subscription", id),
    }
}

fn relation_name(r: &Relation) -> (s: &'static str)
    ensures
        s@ == relation_str(*r),
{
    match r {
        Relation::IsTaggedWith => "is_tagged_with",
        Relation::IsCommentedWith => "is_commented_with",
        Relation::CreatedBy => "created_by",
        Relation::SubscribedTo => "subscribed_to",
        Relation::IsRatedWith => "is_rated_with",
    }
}

/// The deterministic identity of a triple, used for deduplication and
/// deletion; the store has no surrogate key.
pub fn triple_id(t: &Triple) -> (r: String)
    ensures
        r@ == triple_id_str(t@),
{
    let (s_kind, s_id) = object_parts(&t.subject);
    let (o_kind, o_id) = object_parts(&t.object);
    let p_name = relation_name(&t.predicate);
    let mut r = String::new();
    r.append(s_kind);
    r.append("-");
    r.append(s_id.as_str());
    r.append("-");
    r.append(p_name);
    r.append("-");
    r.append(o_kind);
    r.append("-");
    r.append(o_id.as_str());
    r
}

/// Something carrying a stable identity string.
pub trait Id {
    /// The identity, as a character sequence.
    spec fn ident(&self) -> Seq<char>;

    /// The identity, as an owned string.
    fn id(&self) -> (r: String)
        ensures
            r@ == self.ident(),
    ;
}

/// The word that names a rating context on the wire.
pub open spec fn rating_context_str(c: RatingContext) -> Seq<char> {
    match c {
        RatingContext::Diversity => "diversity"@,
        RatingContext::Renewable => "renewable"@,
        RatingContext::Fairness => "fairness"@,
        RatingContext::Humanity => "humanity"@,
        RatingContext::Transparency => "transparency"@,
        RatingContext::Solidarity => "solidarity"@,
    }
}

/// The name of a rating context.
pub fn rating_context_name(c: &RatingContext) -> (s: &'static str)
    ensures
        s@ == rating_context_str(*c),
{
    match c {
        RatingContext::Diversity => "diversity",
        RatingContext::Renewable => "renewable",
        RatingContext::Fairness => "fairness",
        RatingContext::Humanity => "humanity",
        RatingContext::Transparency => "transparency",
        RatingContext::Solidarity => "solidarity",
    }
}

/// Reads a predicate from its wire name; no other word names one.
pub fn parse_relation(s: &str) -> (r: Option<Relation>)
    ensures
        match r {
            Some(rel) => s@ == relation_str(rel),
            None => forall|rel: Relation| s@ != relation_str(rel),
        },
{
    if crate::text::str_eq(s, "is_tagged_with") {
        Some(Relation::IsTaggedWith)
    } else if crate::text::str_eq(s, "is_commented_with") {
        Some(Relation::IsCommentedWith)
    } else if crate::text::str_eq(s, "created_by") {
        Some(Relation::CreatedBy)
    } else if crate::text::str_eq(s, "subscribed_to") {
        Some(Relation::SubscribedTo)
    } else if crate::text::str_eq(s, "is_rated_with") {
        Some(Relation::IsRatedWith)
    } else {
        proof {
            assert forall|rel: Relation| s@ != relation_str(rel) by {
                match rel {
                    Relation::IsTaggedWith => assert(s@ != "is_tagged_with"@),
                    Relation::IsCommentedWith => assert(s@ != "is_commented_with"@),
                    Relation::CreatedBy => assert(s@ != "created_by"@),
                    Relation::SubscribedTo => assert(s@ != "subscribed_to"@),
                    Relation::IsRatedWith => assert(s@ != "is_rated_with"@),
                }
            }
        }
        None
    }
}

/// Reads a rating context from its wire name; no other word names one.
pub fn parse_rating_context(s: &str) -> (r: Option<RatingContext>)
    ensures
        match r {
            Some(c) => s@ == rating_context_str(c),
            None => forall|c: RatingContext| s@ != rating_context_str(c),
        },
{
    if crate::text::str_eq(s, "diversity") {
        Some(RatingContext::Diversity)
    } else if crate::text::str_eq(s, "renewable") {
        Some(RatingContext::Renewable)
    } else if crate::text::str_eq(s, "fairness") {
        Some(RatingContext::Fairness)
    } else if crate::text::str_eq(s, "humanity") {
        Some(RatingContext::Humanity)
    } else if crate::text::str_eq(s, "transparency") {
        Some(RatingContext::Transparency)
    } else if crate::text::str_eq(s, "solidarity") {
        Some(RatingContext::Solidarity)
    } else {
        proof {
            assert forall|c: RatingContext| s@ != rating_context_str(c) by {
                match c {
                    RatingContext::Diversity => assert(s@ != "diversity"@),
                    RatingContext::Renewable => assert(s@ != "renewable"@),
                    RatingContext::Fairness => assert(s@ != "fairness"@),
                    RatingContext::Humanity => assert(s@ != "humanity"@),
                    RatingContext::Transparency => assert(s@ != "transparency"@),
                    RatingContext::Solidarity => assert(s@ != "solidarity"@),
                }
            }
        }
        None
    }
}

/// A directory entry: an immutable-by-replacement record of one
/// organization or place. Updates replace the whole record and must raise
/// the version by exactly one.
#[derive(Debug)]
pub struct Entry {
    pub id: String,
    pub osm_node: Option<u64>,
    pub created: u64,
    pub version: u64,
    pub title: String,
    pub description: String,
    pub lat: Degrees,
    pub lng: Degrees,
    pub street: Option<String>,
    pub zip: Option<String>,
    pub city: Option<String>,
    pub country: Option<String>,
    pub email: Option<String>,
    pub telephone: Option<String>,
    pub homepage: Option<String>,
    pub categories: Vec<String>,
    pub tags: Vec<String>,
    pub license: Option<String>,
}

/// The mathematical view of an [`Entry`].
#[verifier::ext_equal]
pub struct EntryView {
    pub id: Seq<char>,
    pub osm_node: Option<u64>,
    pub created: u64,
    pub version: u64,
    pub title: Seq<char>,
    pub description: Seq<char>,
    pub lat: Degrees,
    pub lng: Degrees,
    pub street: Option<Seq<char>>,
    pub zip: Option<Seq<char>>,
    pub city: Option<Seq<char>>,
    pub country: Option<Seq<char>>,
    pub email: Option<Seq<char>>,
    pub telephone: Option<Seq<char>>,
    pub homepage: Option<Seq<char>>,
    pub categories: Seq<Seq<char>>,
    pub tags: Seq<Seq<char>>,
    pub license: Option<Seq<char>>,
}

impl View for Entry {
    type V = EntryView;

    open spec fn view(&self) -> EntryView {
        EntryView {
            id: self.id@,
            osm_node: self.osm_node,
            created: self.created,
            version: self.version,
            title: self.title@,
            description: self.description@,
            lat: self.lat,
            lng: self.lng,
            street: self.street.deep_view(),
            zip: self.zip.deep_view(),
            city: self.city.deep_view(),
            country: self.country.deep_view(),
            email: self.email.deep_view(),
            telephone: self.telephone.deep_view(),
            homepage: self.homepage.deep_view(),
            categories: self.categories.deep_view(),
            tags: self.tags.deep_view(),
            license: self.license.deep_view(),
        }
    }
}

impl DeepView for Entry {
    type V = EntryView;

    open spec fn deep_view(&self) -> EntryView {
        self.view()
    }
}

fn clone_opt_string(o: &Option<String>) -> (r: Option<String>)
    ensures
        r.deep_view() == o.deep_view(),
{
    match o {
        Some(s) => Some(s.clone()),
        None => None,
    }
}

fn clone_string_vec(v: &Vec<String>) -> (r: Vec<String>)
    ensures
        r.deep_view() == v.deep_view(),
{
    let mut r: Vec<String> = Vec::new();
    let mut i: usize = 0;
    while i < v.len()
        invariant
            i <= v.len(),
            r@.len() == i as int,
            forall|k: int| 0 <= k < i as int ==> #[trigger] r@[k]@ == v@[k]@,
        decreases v.len() - i,
    {
        let x = v[i].clone();
        r.push(x);
        i = i + 1;
    }
    proof {
        assert forall|k: int| 0 <= k < r@.len() implies r.deep_view()[k] == v.deep_view()[k] by {
            assert(r@[k]@ == v@[k]@);
        }
        assert(r.deep_view() =~= v.deep_view());
    }
    r
}

impl Clone for Entry {
    fn clone(&self) -> (res: Self)
        ensures
            res@ == self@,
    {
        Entry {
            id: self.id.clone(),
            osm_node: self.osm_node,
            created: self.created,
            version: self.version,
            title: self.title.clone(),
            description: self.description.clone(),
            lat: self.lat,
            lng: self.lng,
            street: clone_opt_string(&self.street),
            zip: clone_opt_string(&self.zip),
            city: clone_opt_string(&self.city),
            country: clone_opt_string(&self.country),
            email: clone_opt_string(&self.email),
            telephone: clone_opt_string(&self.telephone),
            homepage: clone_opt_string(&self.homepage),
            categories: clone_string_vec(&self.categories),
            tags: clone_string_vec(&self.tags),
            license: clone_opt_string(&self.license),
        }
    }
}

/// A category an entry may belong to.
#[derive(Debug)]
pub struct Category {
    pub id: String,
    pub created: u64,
    pub version: u64,
    pub name: String,
}

/// The mathematical view of a [`Category`].
pub struct CategoryView {
    pub id: Seq<char>,
    pub created: u64,
    pub version: u64,
    pub name: Seq<char>,
}

impl View for Category {
    type V = CategoryView;

    open spec fn view(&self) -> CategoryView {
        CategoryView {
            id: self.id@,
            created: self.created,
            version: self.version,
            name: self.name@,
        }
    }
}

impl DeepView for Category {
    type V = CategoryView;

    open spec fn deep_view(&self) -> CategoryView {
        self.view()
    }
}

impl Clone for Category {
    fn clone(&self) -> (res: Self)
        ensures
            res@ == self@,
    {
        Category {
            id: self.id.clone(),
            created: self.created,
            version: self.version,
            name: self.name.clone(),
        }
    }
}

/// A free-form tag; its id is the tag text itself.
#[derive(Debug)]
pub struct Tag {
    pub id: String,
}

impl View for Tag {
    type V = Seq<char>;

    open spec fn view(&self) -> Seq<char> {
        self.id@
    }
}

impl DeepView for Tag {
    type V = Seq<char>;

    open spec fn deep_view(&self) -> Seq<char> {
        self.id@
    }
}

impl Clone for Tag {
    fn clone(&self) -> (res: Self)
        ensures
            res@ == self@,
    {
        Tag { id: self.id.clone() }
    }
}

/// A registered user.
#[derive(Debug)]
pub struct User {
    pub id: String,
    pub username: String,
    pub password: String,
    pub email: String,
    pub email_confirmed: bool,
}

/// The mathematical view of a [`User`].
pub struct UserView {
    pub id: Seq<char>,
    pub username: Seq<char>,
    pub password: Seq<char>,
    pub email: Seq<char>,
    pub email_confirmed: bool,
}

impl View for User {
    type V = UserView;

    open spec fn view(&self) -> UserView {
        UserView {
            id: self.id@,
            username: self.username@,
            password: self.password@,
            email: self.email@,
            email_confirmed: self.email_confirmed,
        }
    }
}

impl DeepView for User {
    type V = UserView;

    open spec fn deep_view(&self) -> UserView {
        self.view()
    }
}

impl Clone for User {
    fn clone(&self) -> (res: Self)
        ensures
            res@ == self@,
    {
        User {
            id: self.id.clone(),
            username: self.username.clone(),
            password: self.password.clone(),
            email: self.email.clone(),
            email_confirmed: self.email_confirmed,
        }
    }
}

/// A comment, linked to a rating via an `IsCommentedWith` triple and to
/// its author via a `CreatedBy` triple.
#[derive(Debug)]
pub struct Comment {
    pub id: String,
    pub created: u64,
    pub text: String,
}

/// The mathematical view of a [`Comment`].
pub struct CommentView {
    pub id: Seq<char>,
    pub created: u64,
    pub text: Seq<char>,
}

impl View for Comment {
    type V = CommentView;

    open spec fn view(&self) -> CommentView {
        CommentView { id: self.id@, created: self.created, text: self.text@ }
    }
}

impl DeepView for Comment {
    type V = CommentView;

    open spec fn deep_view(&self) -> CommentView {
        self.view()
    }
}

impl Clone for Comment {
    fn clone(&self) -> (res: Self)
        ensures
            res@ == self@,
    {
        Comment { id: self.id.clone(), created: self.created, text: self.text.clone() }
    }
}

/// A community rating of one entry: an integer value in `[-1, 2]` in one
/// of the rating contexts. `entry_id` denormalizes the `IsRatedWith` link.
#[derive(Debug)]
pub struct Rating {
    pub id: String,
    pub entry_id: String,
    pub created: u64,
    pub title: String,
    pub value: i8,
    pub context: RatingContext,
    pub source: Option<String>,
}

/// The mathematical view of a [`Rating`].
pub struct RatingView {
    pub id: Seq<char>,
    pub entry_id: Seq<char>,
    pub created: u64,
    pub title: Seq<char>,
    pub value: i8,
    pub context: RatingContext,
    pub source: Option<Seq<char>>,
}

impl View for Rating {
    type V = RatingView;

    open spec fn view(&self) -> RatingView {
        RatingView {
            id: self.id@,
            entry_id: self.entry_id@,
            created: self.created,
            title: self.title@,
            value: self.value,
            context: self.context,
            source: self.source.deep_view(),
        }
    }
}

impl DeepView for Rating {
    type V = RatingView;

    open spec fn deep_view(&self) -> RatingView {
        self.view()
    }
}

impl Clone for Rating {
    fn clone(&self) -> (res: Self)
        ensures
            res@ == self@,
    {
        Rating {
            id: self.id.clone(),
            entry_id: self.entry_id.clone(),
            created: self.created,
            title: self.title.clone(),
            value: self.value,
            context: self.context,
            source: clone_opt_string(&self.source),
        }
    }
}

/// A saved rectangular region a user wants to be notified about, linked to
/// the user via a `SubscribedTo` triple.
#[derive(Debug)]
pub struct BboxSubscription {
    pub id: String,
    pub south_west_lat: Degrees,
    pub south_west_lng: Degrees,
    pub north_east_lat: Degrees,
    pub north_east_lng: Degrees,
}

/// The mathematical view of a [`BboxSubscription`].
pub struct BboxSubscriptionView {
    pub id: Seq<char>,
    pub south_west_lat: Degrees,
    pub south_west_lng: Degrees,
    pub north_east_lat: Degrees,
    pub north_east_lng: Degrees,
}

impl View for BboxSubscription {
    type V = BboxSubscriptionView;

    open spec fn view(&self) -> BboxSubscriptionView {
        BboxSubscriptionView {
            id: self.id@,
            south_west_lat: self.south_west_lat,
            south_west_lng: self.south_west_lng,
            north_east_lat: self.north_east_lat,
            north_east_lng: self.north_east_lng,
        }
    }
}

impl DeepView for BboxSubscription {
    type V = BboxSubscriptionView;

    open spec fn deep_view(&self) -> BboxSubscriptionView {
        self.view()
    }
}

impl Clone for BboxSubscription {
    fn clone(&self) -> (res: Self)
        ensures
            res@ == self@,
    {
        BboxSubscription {
            id: self.id.clone(),
            south_west_lat: self.south_west_lat,
            south_west_lng: self.south_west_lng,
            north_east_lat: self.north_east_lat,
            north_east_lng: self.north_east_lng,
        }
    }
}

impl Id for Entry {
    open spec fn ident(&self) -> Seq<char> {
        self@.id
    }

    fn id(&self) -> (r: String) {
        self.id.clone()
    }
}

impl Id for Category {
    open spec fn ident(&self) -> Seq<char> {
        self@.id
    }

    fn id(&self) -> (r: String) {
        self.id.clone()
    }
}

impl Id for Tag {
    open spec fn ident(&self) -> Seq<char> {
        self.id@
    }

    fn id(&self) -> (r: String) {
        self.id.clone()
    }
}

impl Id for User {
    open spec fn ident(&self) -> Seq<char> {
        self@.id
    }

    fn id(&self) -> (r: String) {
        self.id.clone()
    }
}

impl Id for Comment {
    open spec fn ident(&self) -> Seq<char> {
        self@.id
    }

    fn id(&self) -> (r: String) {
        self.id.clone()
    }
}

impl Id for Rating {
    open spec fn ident(&self) -> Seq<char> {
        self@.id
    }

    fn id(&self) -> (r: String) {
        self.id.clone()
    }
}

impl Id for BboxSubscription {
    open spec fn ident(&self) -> Seq<char> {
        self@.id
    }

    fn id(&self) -> (r: String) {
        self.id.clone()
    }
}

impl Id for Triple {
    open spec fn ident(&self) -> Seq<char> {
        triple_id_str(self@)
    }

    fn id(&self) -> (r: String) {
        triple_id(self)
    }
}

} // verus!
