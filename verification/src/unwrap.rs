//! Taking a latitude or longitude apart by its notation, with an error value
//! for the wrong notation.
use derive_more::TryUnwrapError;
use vstd::prelude::*;

use crate::types::{LatDMS, LatDeg, LatDegMin, Latitude, LonDMS, LonDeg, LonDegMin, Longitude};

verus! {

/// The error of a `try_unwrap_*` call on the wrong variant; it holds the value
/// the call was made on.
#[verifier::external_type_specification]
#[verifier::external_body]
#[verifier::reject_recursive_types(T)]
pub struct ExTryUnwrapError<T>(TryUnwrapError<T>);

/// `derive_more::TryUnwrapError::new`: builds the error that names the enum,
/// the variant the value has and the method that was called, and keeps the
/// value. Verus sees nothing inside the error, so no clause says what it holds.
#[verifier::external_body]
fn unwrap_error<T>(
    input: T,
    enum_name: &'static str,
    variant_name: &'static str,
    func_name: &'static str,
) -> TryUnwrapError<T> {
    TryUnwrapError::new(input, enum_name, variant_name, func_name)
}

impl Latitude {
    /// The name of the variant.
    fn variant_name(&self) -> (r: &'static str)
        ensures
            (*self is Deg ==> r == "Deg"),
            (*self is DegMin ==> r == "DegMin"),
            (*self is DMS ==> r == "DMS"),
    {
        match self {
            Latitude::Deg(_) => "Deg",
            Latitude::DegMin(_) => "DegMin",
            Latitude::DMS(_) => "DMS",
        }
    }

    /// Returns the `Deg` value, or an error holding `self` for another variant.
    pub fn try_unwrap_deg(self) -> (r: Result<LatDeg, TryUnwrapError<Latitude>>)
        ensures
            self is Deg <==> r is Ok,
            r matches Ok(x) ==> x@ == self@,
    {
        match self {
            Latitude::Deg(x) => Ok(x),
            other => {
                let v = other.variant_name();
                Err(unwrap_error(other, "Latitude", v, "try_unwrap_deg"))
            },
        }
    }

    /// Returns the `DegMin` value, or an error holding `self` for another variant.
    pub fn try_unwrap_deg_min(self) -> (r: Result<LatDegMin, TryUnwrapError<Latitude>>)
        ensures
            self is DegMin <==> r is Ok,
            r matches Ok(x) ==> x@ == self@,
    {
        match self {
            Latitude::DegMin(x) => Ok(x),
            other => {
                let v = other.variant_name();
                Err(unwrap_error(other, "Latitude", v, "try_unwrap_deg_min"))
            },
        }
    }

    /// Returns the `DMS` value, or an error holding `self` for another variant.
    pub fn try_unwrap_dms(self) -> (r: Result<LatDMS, TryUnwrapError<Latitude>>)
        ensures
            self is DMS <==> r is Ok,
            r matches Ok(x) ==> x@ == self@,
    {
        match self {
            Latitude::DMS(x) => Ok(x),
            other => {
                let v = other.variant_name();
                Err(unwrap_error(other, "Latitude", v, "try_unwrap_dms"))
            },
        }
    }

    /// Returns a reference to the `Deg` value, or an error holding `self`.
    pub fn try_unwrap_deg_ref(&self) -> (r: Result<&LatDeg, TryUnwrapError<&Latitude>>)
        ensures
            *self is Deg <==> r is Ok,
            r matches Ok(x) ==> x@ == self@,
    {
        match self {
            Latitude::Deg(x) => Ok(x),
            other => Err(unwrap_error(other, "Latitude", other.variant_name(), "try_unwrap_deg_ref")),
        }
    }

    /// Returns a reference to the `DegMin` value, or an error holding `self`.
    pub fn try_unwrap_deg_min_ref(&self) -> (r: Result<&LatDegMin, TryUnwrapError<&Latitude>>)
        ensures
            *self is DegMin <==> r is Ok,
            r matches Ok(x) ==> x@ == self@,
    {
        match self {
            Latitude::DegMin(x) => Ok(x),
            other => Err(
                unwrap_error(other, "Latitude", other.variant_name(), "try_unwrap_deg_min_ref"),
            ),
        }
    }

    /// Returns a reference to the `DMS` value, or an error holding `self`.
    pub fn try_unwrap_dms_ref(&self) -> (r: Result<&LatDMS, TryUnwrapError<&Latitude>>)
        ensures
            *self is DMS <==> r is Ok,
            r matches Ok(x) ==> x@ == self@,
    {
        match self {
            Latitude::DMS(x) => Ok(x),
            other => Err(unwrap_error(other, "Latitude", other.variant_name(), "try_unwrap_dms_ref")),
        }
    }

    /// Returns a mutable reference to the `Deg` value, or an error holding
    /// `self`.
    pub fn try_unwrap_deg_mut(&mut self) -> (r: Result<&mut LatDeg, TryUnwrapError<&mut Latitude>>)
        ensures
            *old(self) is Deg <==> r is Ok,
            r matches Ok(x) ==> *x == old(self)->Deg_0 && *final(self) == Latitude::Deg(*final(x)),
    {
        match self {
            Latitude::Deg(x) => Ok(x),
            other => {
                let v = other.variant_name();
                Err(unwrap_error(other, "Latitude", v, "try_unwrap_deg_mut"))
            },
        }
    }

    /// Returns a mutable reference to the `DegMin` value, or an error holding
    /// `self`.
    pub fn try_unwrap_deg_min_mut(&mut self) -> (r: Result<&mut LatDegMin, TryUnwrapError<&mut Latitude>>)
        ensures
            *old(self) is DegMin <==> r is Ok,
            r matches Ok(x) ==> *x == old(self)->DegMin_0 && *final(self) == Latitude::DegMin(*final(x)),
    {
        match self {
            Latitude::DegMin(x) => Ok(x),
            other => {
                let v = other.variant_name();
                Err(unwrap_error(other, "Latitude", v, "try_unwrap_deg_min_mut"))
            },
        }
    }

    /// Returns a mutable reference to the `DMS` value, or an error holding
    /// `self`.
    pub fn try_unwrap_dms_mut(&mut self) -> (r: Result<&mut LatDMS, TryUnwrapError<&mut Latitude>>)
        ensures
            *old(self) is DMS <==> r is Ok,
            r matches Ok(x) ==> *x == old(self)->DMS_0 && *final(self) == Latitude::DMS(*final(x)),
    {
        match self {
            Latitude::DMS(x) => Ok(x),
            other => {
                let v = other.variant_name();
                Err(unwrap_error(other, "Latitude", v, "try_unwrap_dms_mut"))
            },
        }
    }
}

impl Longitude {
    /// The name of the variant.
    fn variant_name(&self) -> (r: &'static str)
        ensures
            (*self is Deg ==> r == "Deg"),
            (*self is DegMin ==> r == "DegMin"),
            (*self is DMS ==> r == "DMS"),
    {
        match self {
            Longitude::Deg(_) => "Deg",
            Longitude::DegMin(_) => "DegMin",
            Longitude::DMS(_) => "DMS",
        }
    }

    /// Returns the `Deg` value, or an error holding `self` for another variant.
    pub fn try_unwrap_deg(self) -> (r: Result<LonDeg, TryUnwrapError<Longitude>>)
        ensures
            self is Deg <==> r is Ok,
            r matches Ok(x) ==> x@ == self@,
    {
        match self {
            Longitude::Deg(x) => Ok(x),
            other => {
                let v = other.variant_name();
                Err(unwrap_error(other, "Longitude", v, "try_unwrap_deg"))
            },
        }
    }

    /// Returns the `DegMin` value, or an error holding `self` for another variant.
    pub fn try_unwrap_deg_min(self) -> (r: Result<LonDegMin, TryUnwrapError<Longitude>>)
        ensures
            self is DegMin <==> r is Ok,
            r matches Ok(x) ==> x@ == self@,
    {
        match self {
            Longitude::DegMin(x) => Ok(x),
            other => {
                let v = other.variant_name();
                Err(unwrap_error(other, "Longitude", v, "try_unwrap_deg_min"))
            },
        }
    }

    /// Returns the `DMS` value, or an error holding `self` for another variant.
    pub fn try_unwrap_dms(self) -> (r: Result<LonDMS, TryUnwrapError<Longitude>>)
        ensures
            self is DMS <==> r is Ok,
            r matches Ok(x) ==> x@ == self@,
    {
        match self {
            Longitude::DMS(x) => Ok(x),
            other => {
                let v = other.variant_name();
                Err(unwrap_error(other, "Longitude", v, "try_unwrap_dms"))
            },
        }
    }

    /// Returns a reference to the `Deg` value, or an error holding `self`.
    pub fn try_unwrap_deg_ref(&self) -> (r: Result<&LonDeg, TryUnwrapError<&Longitude>>)
        ensures
            *self is Deg <==> r is Ok,
            r matches Ok(x) ==> x@ == self@,
    {
        match self {
            Longitude::Deg(x) => Ok(x),
            other => Err(
                unwrap_error(other, "Longitude", other.variant_name(), "try_unwrap_deg_ref"),
            ),
        }
    }

    /// Returns a reference to the `DegMin` value, or an error holding `self`.
    pub fn try_unwrap_deg_min_ref(&self) -> (r: Result<&LonDegMin, TryUnwrapError<&Longitude>>)
        ensures
            *self is DegMin <==> r is Ok,
            r matches Ok(x) ==> x@ == self@,
    {
        match self {
            Longitude::DegMin(x) => Ok(x),
            other => Err(
                unwrap_error(other, "Longitude", other.variant_name(), "try_unwrap_deg_min_ref"),
            ),
        }
    }

    /// Returns a reference to the `DMS` value, or an error holding `self`.
    pub fn try_unwrap_dms_ref(&self) -> (r: Result<&LonDMS, TryUnwrapError<&Longitude>>)
        ensures
            *self is DMS <==> r is Ok,
            r matches Ok(x) ==> x@ == self@,
    {
        match self {
            Longitude::DMS(x) => Ok(x),
            other => Err(
                unwrap_error(other, "Longitude", other.variant_name(), "try_unwrap_dms_ref"),
            ),
        }
    }

    /// Returns a mutable reference to the `Deg` value, or an error holding
    /// `self`.
    pub fn try_unwrap_deg_mut(&mut self) -> (r: Result<&mut LonDeg, TryUnwrapError<&mut Longitude>>)
        ensures
            *old(self) is Deg <==> r is Ok,
            r matches Ok(x) ==> *x == old(self)->Deg_0 && *final(self) == Longitude::Deg(*final(x)),
    {
        match self {
            Longitude::Deg(x) => Ok(x),
            other => {
                let v = other.variant_name();
                Err(unwrap_error(other, "Longitude", v, "try_unwrap_deg_mut"))
            },
        }
    }

    /// Returns a mutable reference to the `DegMin` value, or an error holding
    /// `self`.
    pub fn try_unwrap_deg_min_mut(&mut self) -> (r: Result<&mut LonDegMin, TryUnwrapError<&mut Longitude>>)
        ensures
            *old(self) is DegMin <==> r is Ok,
            r matches Ok(x) ==> *x == old(self)->DegMin_0 && *final(self) == Longitude::DegMin(*final(x)),
    {
        match self {
            Longitude::DegMin(x) => Ok(x),
            other => {
                let v = other.variant_name();
                Err(unwrap_error(other, "Longitude", v, "try_unwrap_deg_min_mut"))
            },
        }
    }

    /// Returns a mutable reference to the `DMS` value, or an error holding
    /// `self`.
    pub fn try_unwrap_dms_mut(&mut self) -> (r: Result<&mut LonDMS, TryUnwrapError<&mut Longitude>>)
        ensures
            *old(self) is DMS <==> r is Ok,
            r matches Ok(x) ==> *x == old(self)->DMS_0 && *final(self) == Longitude::DMS(*final(x)),
    {
        match self {
            Longitude::DMS(x) => Ok(x),
            other => {
                let v = other.variant_name();
                Err(unwrap_error(other, "Longitude", v, "try_unwrap_dms_mut"))
            },
        }
    }
}

} // verus!
