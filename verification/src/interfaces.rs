//! Interface descriptions: versions, functions, keys and the interface
//! registry.

use crate::path::{path_cmp, str_cmp, RcPath};
use crate::store::{StoreKey, Stored, VecMap, VecSet};
use core::cmp::Ordering;
use vstd::prelude::*;

verus! {

broadcast use vstd::seq_lib::group_seq_properties;

/// A semantic version: major, then minor, then patch.
#[derive(Debug, Clone, Copy, PartialEq, Eq, Structural)]
pub struct Version {
    pub major: u32,
    pub minor: u32,
    pub patch: u32,
}

/// Versions order lexicographically: major first, then minor, then
/// patch.
pub open spec fn version_cmp(a: Version, b: Version) -> Ordering {
    if a.major != b.major {
        if a.major < b.major {
            Ordering::Less
        } else {
            Ordering::Greater
        }
    } else if a.minor != b.minor {
        if a.minor < b.minor {
            Ordering::Less
        } else {
            Ordering::Greater
        }
    } else if a.patch != b.patch {
        if a.patch < b.patch {
            Ordering::Less
        } else {
            Ordering::Greater
        }
    } else {
        Ordering::Equal
    }
}

/// The decimal digit character of a value below ten.
pub open spec fn digit_char(d: int) -> char {
    ((48 + d) as u8) as char
}

/// The decimal rendering of a number, most significant digit first.
pub open spec fn dec_digits(n: nat) -> Seq<char>
    decreases n,
{
    if n < 10 {
        seq![digit_char(n as int)]
    } else {
        dec_digits(n / 10).push(digit_char((n % 10) as int))
    }
}

/// The rendering of a version: the three numbers, separated by dots.
pub open spec fn version_chars(v: Version) -> Seq<char> {
    dec_digits(v.major as nat) + seq!['.'] + dec_digits(v.minor as nat) + seq!['.'] + dec_digits(
        v.patch as nat,
    )
}

/// The one-character string of a decimal digit.
fn digit_str(d: u32) -> (r: &'static str)
    requires
        d < 10,
    ensures
        r@ == seq![digit_char(d as int)],
{
    let r: &'static str = match d {
        0 => "0",
        1 => "1",
        2 => "2",
        3 => "3",
        4 => "4",
        5 => "5",
        6 => "6",
        7 => "7",
        8 => "8",
        _ => "9",
    };
    proof {
        reveal_strlit("0");
        reveal_strlit("1");
        reveal_strlit("2");
        reveal_strlit("3");
        reveal_strlit("4");
        reveal_strlit("5");
        reveal_strlit("6");
        reveal_strlit("7");
        reveal_strlit("8");
        reveal_strlit("9");
        assert(r@ =~= seq![digit_char(d as int)]);
    }
    r
}

/// Append the decimal rendering of a number to a string.
fn push_decimal(s: &mut String, x: u32)
    ensures
        final(s)@ == old(s)@ + dec_digits(x as nat),
    decreases x,
{
    if x >= 10 {
        proof {
            assert(x / 10 < x) by (nonlinear_arith)
                requires
                    x >= 10,
            ;
        }
        push_decimal(s, x / 10);
    }
    let ghost mid = s@;
    s.append(digit_str(x % 10));
    proof {
        if x < 10 {
            assert(s@ =~= old(s)@ + dec_digits(x as nat));
        } else {
            assert(s@ =~= old(s)@ + dec_digits(x as nat));
        }
    }
}

impl Version {
    /// Create new version instance.
    pub fn new(major: u32, minor: u32, patch: u32) -> (v: Version)
        ensures
            v == (Version { major, minor, patch }),
    {
        Version { major, minor, patch }
    }

    /// The dotted rendering of the version.
    pub fn to_string(&self) -> (r: String)
        ensures
            r@ == version_chars(*self),
    {
        let mut s = String::new();
        push_decimal(&mut s, self.major);
        s.append(".");
        push_decimal(&mut s, self.minor);
        s.append(".");
        push_decimal(&mut s, self.patch);
        proof {
            reveal_strlit(".");
            assert(s@ =~= version_chars(*self));
        }
        s
    }

    /// Compare two versions, major number first.
    pub fn compare(&self, other: &Version) -> (r: Ordering)
        ensures
            r == version_cmp(*self, *other),
    {
        if self.major != other.major {
            if self.major < other.major {
                Ordering::Less
            } else {
                Ordering::Greater
            }
        } else if self.minor != other.minor {
            if self.minor < other.minor {
                Ordering::Less
            } else {
                Ordering::Greater
            }
        } else if self.patch != other.patch {
            if self.patch < other.patch {
                Ordering::Less
            } else {
                Ordering::Greater
            }
        } else {
            Ordering::Equal
        }
    }
}

impl PartialOrd for Version {
    fn partial_cmp(&self, other: &Version) -> (r: Option<Ordering>) {
        Some(self.compare(other))
    }
}

impl vstd::std_specs::cmp::PartialOrdSpecImpl for Version {
    open spec fn obeys_partial_cmp_spec() -> bool {
        true
    }

    open spec fn partial_cmp_spec(&self, other: &Version) -> Option<Ordering> {
        Some(version_cmp(*self, *other))
    }
}

/// Mathematical model of an interface key: the package path and the
/// version.
pub ghost struct KeyModel {
    pub path: Seq<Seq<char>>,
    pub version: Version,
}

/// Interface key that identifies unique interface entries in a map.
#[derive(Clone)]
pub struct Key {
    path: RcPath,
    version: Version,
}

impl View for Key {
    type V = KeyModel;

    closed spec fn view(&self) -> KeyModel {
        KeyModel { path: self.path@, version: self.version }
    }
}

/// Keys order by path first and by version second.
pub open spec fn key_cmp(a: KeyModel, b: KeyModel) -> Ordering {
    match path_cmp(a.path, b.path) {
        Ordering::Equal => version_cmp(a.version, b.version),
        Ordering::Less => Ordering::Less,
        Ordering::Greater => Ordering::Greater,
    }
}

impl Key {
    /// Create new interface key.
    pub fn new(path: RcPath, version: Version) -> (k: Self)
        ensures
            k@ == (KeyModel { path: path@, version }),
    {
        Key { path, version }
    }

    pub fn path(&self) -> (r: &RcPath)
        ensures
            r@ == self@.path,
    {
        &self.path
    }

    pub fn version(&self) -> (r: &Version)
        ensures
            *r == self@.version,
    {
        &self.version
    }

    /// Compare two keys: by path, then by version.
    pub fn compare(&self, other: &Key) -> (r: Ordering)
        ensures
            r == key_cmp(self@, other@),
    {
        match self.path.compare(&other.path) {
            Ordering::Equal => self.version.compare(&other.version),
            Ordering::Less => Ordering::Less,
            Ordering::Greater => Ordering::Greater,
        }
    }
}

impl PartialEq for Key {
    fn eq(&self, other: &Key) -> (r: bool) {
        let c = self.compare(other);
        proof {
            crate::path::lemma_path_cmp_eq(self@.path, other@.path);
        }
        matches!(c, Ordering::Equal)
    }
}

impl Eq for Key {

}

impl vstd::std_specs::cmp::PartialEqSpecImpl for Key {
    open spec fn obeys_eq_spec() -> bool {
        true
    }

    open spec fn eq_spec(&self, other: &Key) -> bool {
        self@ == other@
    }
}

impl PartialOrd for Key {
    fn partial_cmp(&self, other: &Key) -> (r: Option<Ordering>) {
        Some(self.compare(other))
    }
}

impl vstd::std_specs::cmp::PartialOrdSpecImpl for Key {
    open spec fn obeys_partial_cmp_spec() -> bool {
        true
    }

    open spec fn partial_cmp_spec(&self, other: &Key) -> Option<Ordering> {
        Some(key_cmp(self@, other@))
    }
}

impl StoreKey for Key {
    fn key_eq(&self, other: &Self) -> (r: bool) {
        let c = self.compare(other);
        proof {
            crate::path::lemma_path_cmp_eq(self@.path, other@.path);
        }
        matches!(c, Ordering::Equal)
    }

    fn key_dup(&self) -> (r: Self) {
        Key { path: self.path.dup(), version: self.version }
    }
}

/// Mathematical model of an interface function: its name and version.
pub ghost struct FuncModel {
    pub name: Seq<char>,
    pub version: Version,
}

/// Function that must be implemented by an interface implementer.
/// Several functions may share a name as long as their versions
/// differ.
#[derive(Clone)]
pub struct Func {
    name: String,
    version: Version,
}

impl View for Func {
    type V = FuncModel;

    closed spec fn view(&self) -> FuncModel {
        FuncModel { name: self.name@, version: self.version }
    }
}

/// Functions order primarily by name — reversed, so that the order
/// over names runs alphabetically backwards — and secondarily by
/// version.
pub open spec fn func_cmp(a: FuncModel, b: FuncModel) -> Ordering {
    match str_cmp(a.name, b.name) {
        Ordering::Equal => version_cmp(a.version, b.version),
        Ordering::Less => Ordering::Greater,
        Ordering::Greater => Ordering::Less,
    }
}

impl Func {
    /// Create new function entry.
    pub fn new(name: String, version: Version) -> (f: Func)
        ensures
            f@ == (FuncModel { name: name@, version }),
    {
        Func { name, version }
    }

    /// Function version.
    pub fn version(&self) -> (r: &Version)
        ensures
            *r == self@.version,
    {
        &self.version
    }

    /// Function name.
    pub fn name(&self) -> (r: &str)
        ensures
            r@ == self@.name,
    {
        self.name.as_str()
    }

    /// Compare two functions: by reversed name order, then by version.
    pub fn compare(&self, other: &Func) -> (r: Ordering)
        ensures
            r == func_cmp(self@, other@),
    {
        match crate::path::str_compare(self.name.as_str(), other.name.as_str()) {
            Ordering::Equal => self.version.compare(&other.version),
            Ordering::Less => Ordering::Greater,
            Ordering::Greater => Ordering::Less,
        }
    }
}

impl PartialEq for Func {
    fn eq(&self, other: &Func) -> (r: bool) {
        let names_eq = self.name.eq(&other.name);
        let versions_eq = self.version.major == other.version.major && self.version.minor
            == other.version.minor && self.version.patch == other.version.patch;
        names_eq && versions_eq
    }
}

impl Eq for Func {

}

impl vstd::std_specs::cmp::PartialEqSpecImpl for Func {
    open spec fn obeys_eq_spec() -> bool {
        true
    }

    open spec fn eq_spec(&self, other: &Func) -> bool {
        self@ == other@
    }
}

impl PartialOrd for Func {
    fn partial_cmp(&self, other: &Func) -> (r: Option<Ordering>) {
        Some(self.compare(other))
    }
}

impl vstd::std_specs::cmp::PartialOrdSpecImpl for Func {
    open spec fn obeys_partial_cmp_spec() -> bool {
        true
    }

    open spec fn partial_cmp_spec(&self, other: &Func) -> Option<Ordering> {
        Some(func_cmp(self@, other@))
    }
}

impl StoreKey for Func {
    fn key_eq(&self, other: &Self) -> (r: bool) {
        let names_eq = self.name.eq(&other.name);
        let versions_eq = self.version.major == other.version.major && self.version.minor
            == other.version.minor && self.version.patch == other.version.patch;
        names_eq && versions_eq
    }

    fn key_dup(&self) -> (r: Self) {
        Func { name: self.name.clone(), version: self.version }
    }
}

/// Mathematical model of an interface: its function set and its
/// prerequisite keys.
pub ghost struct InterfaceModel {
    pub fns: Set<FuncModel>,
    pub prerequisites: Set<KeyModel>,
}

/// Information about an interface: the functions it offers and the
/// interfaces that must be implemented first in order to allow this
/// one's implementation.
#[derive(Clone)]
pub struct Interface {
    fns: VecSet<Func>,
    prerequisites: VecSet<Key>,
}

impl View for Interface {
    type V = InterfaceModel;

    closed spec fn view(&self) -> InterfaceModel {
        InterfaceModel { fns: self.fns@, prerequisites: self.prerequisites@ }
    }
}

impl Stored for Interface {
    open spec fn inv(&self) -> bool {
        self.wf()
    }
}

impl Interface {
    pub closed spec fn wf(&self) -> bool {
        self.fns.wf() && self.prerequisites.wf()
    }

    /// Create new interface entry.
    pub fn new() -> (i: Interface)
        ensures
            i.wf(),
            i@.fns == Set::<FuncModel>::empty(),
            i@.prerequisites == Set::<KeyModel>::empty(),
    {
        Interface { fns: VecSet::new(), prerequisites: VecSet::new() }
    }

    /// Function set.
    pub fn fns(&self) -> (r: &VecSet<Func>)
        ensures
            r@ == self@.fns,
            self.wf() ==> r.wf(),
    {
        &self.fns
    }

    /// Set of prerequisite interfaces. These interfaces are required to
    /// be implemented by a process in case it wants to implement this
    /// interface.
    pub fn prerequisites(&self) -> (r: &VecSet<Key>)
        ensures
            r@ == self@.prerequisites,
            self.wf() ==> r.wf(),
    {
        &self.prerequisites
    }

    /// Add new function to the function set.
    pub fn add_fn(&mut self, func: Func)
        requires
            old(self).wf(),
        ensures
            final(self).wf(),
            final(self)@.fns == old(self)@.fns.insert(func@),
            final(self)@.prerequisites == old(self)@.prerequisites,
    {
        self.fns.insert(func);
    }

    /// Add new prerequisite to the set.
    pub fn add_prerequisite(&mut self, key: Key)
        requires
            old(self).wf(),
        ensures
            final(self).wf(),
            final(self)@.prerequisites == old(self)@.prerequisites.insert(key@),
            final(self)@.fns == old(self)@.fns,
    {
        self.prerequisites.insert(key);
    }
}

/// Set of all interfaces and their relations, keyed by interface key.
pub struct InterfaceSet {
    map: VecMap<Key, Interface>,
}

impl View for InterfaceSet {
    type V = Map<KeyModel, InterfaceModel>;

    closed spec fn view(&self) -> Map<KeyModel, InterfaceModel> {
        self.map@
    }
}

impl InterfaceSet {
    pub closed spec fn wf(&self) -> bool {
        self.map.wf()
    }

    /// Create new interface set.
    pub fn new() -> (s: Self)
        ensures
            s.wf(),
            s@ == Map::<KeyModel, InterfaceModel>::empty(),
    {
        InterfaceSet { map: VecMap::new() }
    }

    /// Interface map.
    pub fn interfaces(&self) -> (r: &VecMap<Key, Interface>)
        ensures
            r@ == self@,
            self.wf() ==> r.wf(),
    {
        &self.map
    }

    /// Add new interface to the map. If an interface with the same key
    /// is present, the new interface is discarded and an error
    /// returned.
    pub fn add_interface(&mut self, key: Key, interface: Interface) -> (r: Result<(), ()>)
        requires
            old(self).wf(),
            interface.wf(),
        ensures
            final(self).wf(),
            match r {
                Ok(_) => !old(self)@.contains_key(key@) && final(self)@ == old(self)@.insert(
                    key@,
                    interface@,
                ),
                Err(_) => old(self)@.contains_key(key@) && final(self)@ == old(self)@,
            },
    {
        if self.map.contains_key(&key) {
            return Err(());
        }
        self.map.insert_new(key, interface);
        Ok(())
    }

    /// Remove interface from the map. If there is no such key an error
    /// is returned.
    pub fn remove_interface(&mut self, key: &Key) -> (r: Result<Interface, ()>)
        requires
            old(self).wf(),
        ensures
            final(self).wf(),
            match r {
                Ok(i) => {
                    &&& old(self)@.contains_key(key@)
                    &&& i@ == old(self)@[key@]
                    &&& i.wf()
                    &&& final(self)@ == old(self)@.remove(key@)
                },
                Err(_) => !old(self)@.contains_key(key@) && final(self)@ == old(self)@,
            },
    {
        match self.map.remove(key) {
            Some(i) => Ok(i),
            None => Err(()),
        }
    }

    /// The interface stored under a key, if any.
    pub fn interface(&self, key: &Key) -> (r: Option<&Interface>)
        requires
            self.wf(),
        ensures
            match r {
                Some(i) => self@.contains_key(key@) && i@ == self@[key@] && i.wf(),
                None => !self@.contains_key(key@),
            },
    {
        self.map.get(key)
    }
}

} // verus!
