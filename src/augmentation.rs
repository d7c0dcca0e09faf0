use vstd::prelude::*;
use vstd::string::StrSliceExecFns;
use crate::naming::{labelled_with, is_numeral_letter};

verus! {

/// The three texts put in front of a pool member's identifier: one for the
/// first member, one for the last, one for every member in between.
pub struct AugmentationPrefix {
    pub first: String,
    pub middle: String,
    pub last: String,
}

/// A capability grant, by permission name.
pub struct Permission {
    pub name: String,
    pub value: i32,
}

/// A configuration attribute of a channel.
pub enum ChannelProperty {
    Name(String),
    /// The id of the channel this one is sorted after.
    Order(i32),
    FlagDefault(bool),
    Password(String),
    IconId(i64),
    /// Any other attribute, by its protocol key and value.
    Other(String, String),
}

pub struct PermissionView {
    pub name: Seq<char>,
    pub value: i32,
}

impl View for Permission {
    type V = PermissionView;

    open spec fn view(&self) -> PermissionView {
        PermissionView { name: self.name@, value: self.value }
    }
}

impl Permission {
    pub fn copy(&self) -> (r: Permission)
        ensures
            r == *self,
    {
        Permission { name: self.name.clone(), value: self.value }
    }
}

pub enum PropertyView {
    Name(Seq<char>),
    Order(i32),
    FlagDefault(bool),
    Password(Seq<char>),
    IconId(i64),
    Other(Seq<char>, Seq<char>),
}

impl View for ChannelProperty {
    type V = PropertyView;

    open spec fn view(&self) -> PropertyView {
        match self {
            ChannelProperty::Name(n) => PropertyView::Name(n@),
            ChannelProperty::Order(o) => PropertyView::Order(*o),
            ChannelProperty::FlagDefault(f) => PropertyView::FlagDefault(*f),
            ChannelProperty::Password(p) => PropertyView::Password(p@),
            ChannelProperty::IconId(i) => PropertyView::IconId(*i),
            ChannelProperty::Other(k, v) => PropertyView::Other(k@, v@),
        }
    }
}

impl ChannelProperty {
    pub fn copy(&self) -> (r: ChannelProperty)
        ensures
            r == *self,
    {
        match self {
            ChannelProperty::Name(n) => ChannelProperty::Name(n.clone()),
            ChannelProperty::Order(o) => ChannelProperty::Order(*o),
            ChannelProperty::FlagDefault(f) => ChannelProperty::FlagDefault(*f),
            ChannelProperty::Password(p) => ChannelProperty::Password(p.clone()),
            ChannelProperty::IconId(i) => ChannelProperty::IconId(*i),
            ChannelProperty::Other(k, v) => ChannelProperty::Other(k.clone(), v.clone()),
        }
    }
}

pub open spec fn permission_views(s: Seq<Permission>) -> Seq<PermissionView> {
    s.map_values(|p: Permission| p@)
}

pub open spec fn property_views(s: Seq<ChannelProperty>) -> Seq<PropertyView> {
    s.map_values(|p: ChannelProperty| p@)
}

pub fn copy_permissions(v: &Vec<Permission>) -> (r: Vec<Permission>)
    ensures
        r@ == v@,
{
    let mut r: Vec<Permission> = Vec::new();
    for i in 0..v.len()
        invariant
            r@ == v@.subrange(0, i as int),
    {
        r.push(v[i].copy());
        assert(r@ =~= v@.subrange(0, i + 1));
    }
    assert(r@ =~= v@);
    r
}

pub fn copy_properties(v: &Vec<ChannelProperty>) -> (r: Vec<ChannelProperty>)
    ensures
        r@ == v@,
{
    let mut r: Vec<ChannelProperty> = Vec::new();
    for i in 0..v.len()
        invariant
            r@ == v@.subrange(0, i as int),
    {
        r.push(v[i].copy());
        assert(r@ =~= v@.subrange(0, i + 1));
    }
    assert(r@ =~= v@);
    r
}

impl AugmentationPrefix {
    pub fn copy(&self) -> (r: AugmentationPrefix)
        ensures
            r == *self,
    {
        AugmentationPrefix { first: self.first.clone(), middle: self.middle.clone(), last: self.last.clone() }
    }
}

/// A managed pool definition.
pub struct Augmentation {
    pub identifier: String,
    pub parent: i32,
    pub prefix: AugmentationPrefix,
    pub permissions: Vec<Permission>,
    pub properties: Vec<ChannelProperty>,
}

/// `name` belongs to the pool of `identifier` under these prefixes.
pub open spec fn is_member_name(prefix: AugmentationPrefix, identifier: Seq<char>, name: Seq<char>) -> bool {
    ||| labelled_with(name, prefix.first@, identifier)
    ||| labelled_with(name, prefix.middle@, identifier)
    ||| labelled_with(name, prefix.last@, identifier)
}

impl Augmentation {
    pub open spec fn owns(&self, name: Seq<char>) -> bool {
        is_member_name(self.prefix, self.identifier@, name)
    }

    /// Whether a channel called `channel_name` is a member of this pool.
    pub fn is_instance(&self, channel_name: &str) -> (r: bool)
        ensures
            r == self.owns(channel_name@),
    {
        has_label(channel_name, self.prefix.first.as_str(), self.identifier.as_str())
            || has_label(channel_name, self.prefix.middle.as_str(), self.identifier.as_str())
            || has_label(channel_name, self.prefix.last.as_str(), self.identifier.as_str())
    }

    pub fn set_prefix(&mut self, prefix: AugmentationPrefix)
        ensures
            final(self).prefix == prefix,
            final(self).identifier == old(self).identifier,
            final(self).parent == old(self).parent,
            final(self).permissions == old(self).permissions,
            final(self).properties == old(self).properties,
    {
        self.prefix = prefix;
    }
}

/// `text` occurs in `name` at character index `at`.
pub(crate) fn occurs_at(name: &str, text: &str, at: usize) -> (r: bool)
    requires
        at + text@.len() <= name@.len(),
    ensures
        r == (name@.subrange(at as int, at + text@.len()) == text@),
{
    let len = text.unicode_len();
    let total = name.unicode_len();
    let mut i: usize = 0;
    while i < len
        invariant
            len == text@.len(),
            total == name@.len(),
            at + len <= name@.len(),
            i <= len,
            forall|j: int| 0 <= j < i ==> name@[at + j] == text@[j],
        decreases len - i,
    {
        if name.get_char(at + i) != text.get_char(i) {
            assert(name@.subrange(at as int, at + len)[i as int] != text@[i as int]);
            return false;
        }
        i = i + 1;
    }
    assert(name@.subrange(at as int, at + len) =~= text@);
    true
}

/// Every character of `name` from `from` on is a numeral letter.
fn numerals_from(name: &str, from: usize) -> (r: bool)
    requires
        from <= name@.len(),
    ensures
        r == (forall|j: int| from <= j < name@.len() ==> is_numeral_letter(#[trigger] name@[j])),
{
    let len = name.unicode_len();
    let mut i = from;
    while i < len
        invariant
            len == name@.len(),
            from <= i <= len,
            forall|j: int| from <= j < i ==> is_numeral_letter(#[trigger] name@[j]),
        decreases len - i,
    {
        let c = name.get_char(i);
        if !(c == 'I' || c == 'V' || c == 'X' || c == 'L' || c == 'C' || c == 'D' || c == 'M') {
            return false;
        }
        i = i + 1;
    }
    true
}

fn has_label(name: &str, prefix: &str, identifier: &str) -> (r: bool)
    ensures
        r == labelled_with(name@, prefix@, identifier@),
{
    let n = name.unicode_len();
    let p = prefix.unicode_len();
    let d = identifier.unicode_len();
    let ghost head = prefix@ + identifier@ + seq![' '];
    if p > n || d > n - p || n - p - d < 2 {
        return false;
    }
    let at_space = p + d;
    let good = occurs_at(name, prefix, 0) && occurs_at(name, identifier, p)
        && name.get_char(at_space) == ' ' && numerals_from(name, at_space + 1);
    proof {
        let lead = name@.subrange(0, head.len() as int);
        let tail = name@.subrange(head.len() as int, name@.len() as int);
        if labelled_with(name@, prefix@, identifier@) {
            assert(name@.subrange(0, p as int) =~= lead.subrange(0, p as int));
            assert(head.subrange(0, p as int) =~= prefix@);
            assert(name@.subrange(p as int, p + d) =~= lead.subrange(p as int, p + d));
            assert(head.subrange(p as int, p + d) =~= identifier@);
            assert(lead[at_space as int] == head[at_space as int]);
            assert forall|j: int| at_space + 1 <= j < name@.len() implies is_numeral_letter(#[trigger] name@[j]) by {
                assert(tail[j - head.len()] == name@[j]);
            }
        }
        if good {
            assert(lead =~= head) by {
                assert forall|j: int| 0 <= j < head.len() implies lead[j] == head[j] by {
                    if j < p {
                        assert(name@.subrange(0, p as int)[j] == name@[j]);
                    } else if j < p + d {
                        assert(name@.subrange(p as int, p + d)[j - p] == name@[j]);
                    }
                }
            }
            assert forall|j: int| 0 <= j < tail.len() implies is_numeral_letter(#[trigger] tail[j]) by {
                assert(tail[j] == name@[j + head.len()]);
            }
        }
    }
    good
}

} // verus!
