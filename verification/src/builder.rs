//! A small builder for entries: a default record whose varying fields
//! (id, title, description, position, categories) are set step by step.

use vstd::prelude::*;

use crate::entities::{Entry, EntryView};
use crate::geo::Degrees;

verus! {

/// The view of the default entry every build starts from.
pub open spec fn default_entry_view() -> EntryView {
    EntryView {
        id: Seq::empty(),
        osm_node: None,
        created: 0,
        version: 0,
        title: Seq::empty(),
        description: Seq::empty(),
        lat: Degrees::Finite(0),
        lng: Degrees::Finite(0),
        street: None,
        zip: None,
        city: None,
        country: None,
        email: None,
        telephone: None,
        homepage: None,
        categories: Seq::empty(),
        tags: Seq::empty(),
        license: None,
    }
}

impl Default for Entry {
    /// The default entry: empty strings, position zero, nothing optional.
    fn default() -> (r: Entry)
        ensures
            r@ == default_entry_view(),
    {
        let r = Entry {
            id: String::new(),
            osm_node: None,
            created: 0,
            version: 0,
            title: String::new(),
            description: String::new(),
            lat: Degrees::Finite(0),
            lng: Degrees::Finite(0),
            street: None,
            zip: None,
            city: None,
            country: None,
            email: None,
            telephone: None,
            homepage: None,
            categories: Vec::new(),
            tags: Vec::new(),
            license: None,
        };
        proof {
            assert(r.categories.deep_view() =~= Seq::<Seq<char>>::empty());
            assert(r.tags.deep_view() =~= Seq::<Seq<char>>::empty());
        }
        r
    }
}

/// An entry under construction.
pub struct EntryBuild {
    entry: Entry,
}

impl View for EntryBuild {
    type V = EntryView;

    closed spec fn view(&self) -> EntryView {
        self.entry@
    }
}

/// Something entries can be built from.
pub trait EntryBuilder {
    /// Starts a build from the default entry.
    fn build() -> (r: EntryBuild)
        ensures
            r@ == default_entry_view(),
    ;
}

impl EntryBuilder for Entry {
    fn build() -> (r: EntryBuild) {
        EntryBuild { entry: Entry::default() }
    }
}

impl EntryBuild {
    /// Sets the id.
    pub fn id(self, id: &str) -> (r: Self)
        ensures
            r@ == (EntryView { id: id@, ..self@ }),
    {
        EntryBuild { entry: Entry { id: id.to_owned(), ..self.entry } }
    }

    /// Sets the title.
    pub fn title(self, title: &str) -> (r: Self)
        ensures
            r@ == (EntryView { title: title@, ..self@ }),
    {
        EntryBuild { entry: Entry { title: title.to_owned(), ..self.entry } }
    }

    /// Sets the description.
    pub fn description(self, desc: &str) -> (r: Self)
        ensures
            r@ == (EntryView { description: desc@, ..self@ }),
    {
        EntryBuild { entry: Entry { description: desc.to_owned(), ..self.entry } }
    }

    /// Sets the latitude.
    pub fn lat(self, lat: Degrees) -> (r: Self)
        ensures
            r@ == (EntryView { lat: lat, ..self@ }),
    {
        EntryBuild { entry: Entry { lat, ..self.entry } }
    }

    /// Sets the longitude.
    pub fn lng(self, lng: Degrees) -> (r: Self)
        ensures
            r@ == (EntryView { lng: lng, ..self@ }),
    {
        EntryBuild { entry: Entry { lng, ..self.entry } }
    }

    /// Sets the category ids.
    pub fn categories(self, cats: Vec<&str>) -> (r: Self)
        ensures
            r@ == (EntryView { categories: cats.deep_view(), ..self@ }),
    {
        let mut owned: Vec<String> = Vec::new();
        let mut i: usize = 0;
        while i < cats.len()
            invariant
                i <= cats@.len(),
                owned@.len() == i as int,
                forall|k: int| 0 <= k < i as int ==> (#[trigger] owned@[k])@ == cats@[k]@,
            decreases cats@.len() - i,
        {
            owned.push(cats[i].to_owned());
            i = i + 1;
        }
        proof {
            assert forall|k: int| 0 <= k < owned.deep_view().len() implies owned.deep_view()[k]
                == cats.deep_view()[k] by {
                assert(owned@[k]@ == cats@[k]@);
            }
            assert(owned.deep_view() =~= cats.deep_view());
        }
        EntryBuild { entry: Entry { categories: owned, ..self.entry } }
    }

    /// Hands the finished entry out.
    pub fn finish(self) -> (r: Entry)
        ensures
            r@ == self@,
    {
        self.entry
    }
}

} // verus!
