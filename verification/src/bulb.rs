//! The device record: one discovered light and its advertised attributes.

use vstd::prelude::*;

verus! {

/// One discovered light. Every attribute is kept verbatim as opaque text,
/// exactly as the device advertised it; nothing is parsed or range-checked
/// at this layer. `location` holds the `host:port` control address, i.e. the
/// advertised `Location` header with its schema prefix (up to and including
/// `//`) stripped. A record is never mutated after discovery builds it.
#[derive(Debug, Clone)]
pub struct Bulb {
    pub location: String,
    pub id: String,
    pub power: String,
    pub bright: String,
    pub color_mode: String,
    pub rgb: String,
    pub ct: String,
    pub hue: String,
    pub sat: String,
    pub name: String,
}

/// The mathematical content of a `Bulb`: each attribute as a character
/// sequence.
#[verifier::ext_equal]
pub struct BulbView {
    pub location: Seq<char>,
    pub id: Seq<char>,
    pub power: Seq<char>,
    pub bright: Seq<char>,
    pub color_mode: Seq<char>,
    pub rgb: Seq<char>,
    pub ct: Seq<char>,
    pub hue: Seq<char>,
    pub sat: Seq<char>,
    pub name: Seq<char>,
}

impl View for Bulb {
    type V = BulbView;

    open spec fn view(&self) -> BulbView {
        BulbView {
            location: self.location@,
            id: self.id@,
            power: self.power@,
            bright: self.bright@,
            color_mode: self.color_mode@,
            rgb: self.rgb@,
            ct: self.ct@,
            hue: self.hue@,
            sat: self.sat@,
            name: self.name@,
        }
    }
}

impl BulbView {
    /// The record a discovery run starts from: every attribute empty.
    pub open spec fn empty() -> BulbView {
        BulbView {
            location: Seq::empty(),
            id: Seq::empty(),
            power: Seq::empty(),
            bright: Seq::empty(),
            color_mode: Seq::empty(),
            rgb: Seq::empty(),
            ct: Seq::empty(),
            hue: Seq::empty(),
            sat: Seq::empty(),
            name: Seq::empty(),
        }
    }
}

impl Bulb {
    pub fn get_id(&self) -> (r: &String)
        ensures
            r@ == self@.id,
    {
        &self.id
    }

    pub fn get_location(&self) -> (r: &String)
        ensures
            r@ == self@.location,
    {
        &self.location
    }

    /// A fresh record with every attribute empty; discovery fills it from a
    /// parsed reply.
    pub fn new_bulb() -> (b: Bulb)
        ensures
            b@ == BulbView::empty(),
    {
        let b = Bulb {
            location: String::new(),
            id: String::new(),
            power: String::new(),
            bright: String::new(),
            color_mode: String::new(),
            rgb: String::new(),
            ct: String::new(),
            hue: String::new(),
            sat: String::new(),
            name: String::new(),
        };
        proof {
            assert(b@ =~= BulbView::empty());
        }
        b
    }
}

} // verus!
