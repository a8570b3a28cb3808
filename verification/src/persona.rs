//! The contact record stored by the library.

use vstd::prelude::*;

verus! {

/// One contact record: ten ordered text fields. The email is the record's
/// unique identifying key.
#[derive(Debug)]
pub struct Persona {
    pub nombres: String,
    pub apellidos: String,
    pub compania: String,
    pub direccion: String,
    pub ciudad: String,
    pub pais: String,
    pub provincia: String,
    pub telefono1: String,
    pub telefono2: String,
    pub email: String,
}

/// The mathematical image of a record: the character content of its ten
/// fields. Two records are deep-equal exactly when their views are equal.
pub ghost struct PersonaVista {
    pub nombres: Seq<char>,
    pub apellidos: Seq<char>,
    pub compania: Seq<char>,
    pub direccion: Seq<char>,
    pub ciudad: Seq<char>,
    pub pais: Seq<char>,
    pub provincia: Seq<char>,
    pub telefono1: Seq<char>,
    pub telefono2: Seq<char>,
    pub email: Seq<char>,
}

impl View for Persona {
    type V = PersonaVista;

    open spec fn view(&self) -> PersonaVista {
        PersonaVista {
            nombres: self.nombres@,
            apellidos: self.apellidos@,
            compania: self.compania@,
            direccion: self.direccion@,
            ciudad: self.ciudad@,
            pais: self.pais@,
            provincia: self.provincia@,
            telefono1: self.telefono1@,
            telefono2: self.telefono2@,
            email: self.email@,
        }
    }
}

impl PartialEq for Persona {
    fn eq(&self, otro: &Persona) -> (r: bool) {
        self.nombres == otro.nombres && self.apellidos == otro.apellidos
            && self.compania == otro.compania && self.direccion == otro.direccion
            && self.ciudad == otro.ciudad && self.pais == otro.pais
            && self.provincia == otro.provincia && self.telefono1 == otro.telefono1
            && self.telefono2 == otro.telefono2 && self.email == otro.email
    }
}

impl vstd::std_specs::cmp::PartialEqSpecImpl for Persona {
    open spec fn obeys_eq_spec() -> bool {
        true
    }

    open spec fn eq_spec(&self, otro: &Persona) -> bool {
        self@ == otro@
    }
}

} // verus!
