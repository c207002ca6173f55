//! Application records and the normalisation of raw descriptors into them.
use vstd::prelude::*;

use crate::text::{lower_of, lowercase};

verus! {

/// A raw application descriptor as the desktop-entry source hands it over,
/// with its localised strings already resolved for the preferred locales.
#[derive(Debug, Clone)]
pub struct Descriptor {
    pub id: String,
    pub name: Option<String>,
    pub type_: Option<String>,
    pub categories: Option<Vec<String>>,
    pub comment: Option<String>,
    pub exec_template: Option<String>,
    pub path: String,
}

/// A canonical application record.
#[derive(Debug, Clone)]
pub struct DesktopEntry {
    pub id: String,
    pub name: String,
    pub lower_name: String,
    pub type_: Option<String>,
    pub categories: Vec<String>,
    pub comment: Option<String>,
    pub exec_template: Option<String>,
    pub path: String,
}

/// Mathematical model of a [`Descriptor`].
pub ghost struct DescriptorView {
    pub id: Seq<char>,
    pub name: Option<Seq<char>>,
    pub type_: Option<Seq<char>>,
    pub categories: Option<Seq<Seq<char>>>,
    pub comment: Option<Seq<char>>,
    pub exec_template: Option<Seq<char>>,
    pub path: Seq<char>,
}

/// Mathematical model of a [`DesktopEntry`].
pub ghost struct EntryView {
    pub id: Seq<char>,
    pub name: Seq<char>,
    pub lower_name: Seq<char>,
    pub type_: Option<Seq<char>>,
    pub categories: Seq<Seq<char>>,
    pub comment: Option<Seq<char>>,
    pub exec_template: Option<Seq<char>>,
    pub path: Seq<char>,
}

pub open spec fn opt_view(o: Option<String>) -> Option<Seq<char>> {
    match o {
        Some(s) => Some(s@),
        None => None,
    }
}

pub open spec fn strings_view(v: Seq<String>) -> Seq<Seq<char>> {
    v.map_values(|s: String| s@)
}

impl View for Descriptor {
    type V = DescriptorView;

    open spec fn view(&self) -> DescriptorView {
        DescriptorView {
            id: self.id@,
            name: opt_view(self.name),
            type_: opt_view(self.type_),
            categories: match self.categories {
                Some(v) => Some(strings_view(v@)),
                None => None,
            },
            comment: opt_view(self.comment),
            exec_template: opt_view(self.exec_template),
            path: self.path@,
        }
    }
}

impl View for DesktopEntry {
    type V = EntryView;

    open spec fn view(&self) -> EntryView {
        EntryView {
            id: self.id@,
            name: self.name@,
            lower_name: self.lower_name@,
            type_: opt_view(self.type_),
            categories: strings_view(self.categories@),
            comment: opt_view(self.comment),
            exec_template: opt_view(self.exec_template),
            path: self.path@,
        }
    }
}

proof fn lemma_strings_view_push(v: Seq<String>, s: String)
    ensures
        strings_view(v.push(s)) == strings_view(v).push(s@),
{
    assert(strings_view(v.push(s)) =~= strings_view(v).push(s@));
}

/// The sequence with every empty string removed, the others kept in order.
pub open spec fn without_empty(s: Seq<Seq<char>>) -> Seq<Seq<char>>
    decreases s.len(),
{
    if s.len() == 0 {
        Seq::empty()
    } else if s.last().len() > 0 {
        without_empty(s.drop_last()).push(s.last())
    } else {
        without_empty(s.drop_last())
    }
}

/// The record that a descriptor normalises to: a missing name becomes the
/// empty string, empty categories are dropped, the rest is carried over.
pub open spec fn normalized(d: DescriptorView) -> EntryView {
    let name = match d.name {
        Some(n) => n,
        None => Seq::empty(),
    };
    EntryView {
        id: d.id,
        name,
        lower_name: lower_of(name),
        type_: d.type_,
        categories: match d.categories {
            Some(c) => without_empty(c),
            None => Seq::empty(),
        },
        comment: d.comment,
        exec_template: d.exec_template,
        path: d.path,
    }
}

pub(crate) fn clone_opt(o: &Option<String>) -> (r: Option<String>)
    ensures
        opt_view(r) == opt_view(*o),
{
    match o {
        Some(s) => Some(s.clone()),
        None => None,
    }
}

fn clone_strings(v: &Vec<String>) -> (r: Vec<String>)
    ensures
        strings_view(r@) == strings_view(v@),
{
    let mut r: Vec<String> = Vec::new();
    let mut i: usize = 0;
    while i < v.len()
        invariant
            i <= v.len(),
            strings_view(r@) == strings_view(v@.subrange(0, i as int)),
        decreases v.len() - i,
    {
        let s = v[i].clone();
        proof {
            lemma_strings_view_push(r@, s);
            lemma_strings_view_push(v@.subrange(0, i as int), v@[i as int]);
        }
        r.push(s);
        assert(v@.subrange(0, i + 1) =~= v@.subrange(0, i as int).push(v@[i as int]));
        assert(strings_view(r@) =~= strings_view(v@.subrange(0, i + 1)));
        i = i + 1;
    }
    assert(v@.subrange(0, v.len() as int) =~= v@);
    r
}

/// The given strings without the empty ones.
pub fn non_empty_strings(v: &Vec<String>) -> (r: Vec<String>)
    ensures
        strings_view(r@) == without_empty(strings_view(v@)),
{
    let mut r: Vec<String> = Vec::new();
    let mut i: usize = 0;
    while i < v.len()
        invariant
            i <= v.len(),
            strings_view(r@) == without_empty(strings_view(v@.subrange(0, i as int))),
        decreases v.len() - i,
    {
        let ghost prefix = strings_view(v@.subrange(0, i + 1));
        assert(v@.subrange(0, i + 1) =~= v@.subrange(0, i as int).push(v@[i as int]));
        assert(prefix.drop_last() =~= strings_view(v@.subrange(0, i as int)));
        if v[i].as_str().unicode_len() > 0 {
            let s = v[i].clone();
            proof {
                lemma_strings_view_push(r@, s);
            }
            r.push(s);
            assert(strings_view(r@) =~= without_empty(prefix));
        }
        i = i + 1;
    }
    assert(v@.subrange(0, v.len() as int) =~= v@);
    r
}

impl DesktopEntry {
    /// A copy of this record.
    pub fn duplicate(&self) -> (r: DesktopEntry)
        ensures
            r@ == self@,
    {
        DesktopEntry {
            id: self.id.clone(),
            name: self.name.clone(),
            lower_name: self.lower_name.clone(),
            type_: clone_opt(&self.type_),
            categories: clone_strings(&self.categories),
            comment: clone_opt(&self.comment),
            exec_template: clone_opt(&self.exec_template),
            path: self.path.clone(),
        }
    }
}

/// Normalises one raw descriptor into a canonical record.
pub fn normalize(d: &Descriptor) -> (r: DesktopEntry)
    ensures
        r@ == normalized(d@),
{
    let name = match &d.name {
        Some(n) => n.clone(),
        None => String::new(),
    };
    let lower_name = lowercase(name.as_str());
    let categories = match &d.categories {
        Some(c) => non_empty_strings(c),
        None => Vec::new(),
    };
    proof {
        if d.categories is None {
            assert(strings_view(categories@) =~= Seq::<Seq<char>>::empty());
        }
    }
    let r = DesktopEntry {
        id: d.id.clone(),
        name,
        lower_name,
        type_: clone_opt(&d.type_),
        categories,
        comment: clone_opt(&d.comment),
        exec_template: clone_opt(&d.exec_template),
        path: d.path.clone(),
    };
    assert(r@.categories == normalized(d@).categories);
    r
}

} // verus!
