//! Network records, as listed and created.
use vstd::prelude::*;
use std::collections::HashMap;

verus! {

/// A network as the listing reports it.
#[allow(non_snake_case)]
#[derive(Debug, Clone)]
pub struct Network {
    pub Name: String,
    pub Id: String,
    pub Created: String,
    pub Scope: String,
    pub Driver: Option<String>,
    pub EnableIPv6: bool,
    pub Internal: bool,
    pub Attachable: bool,
    pub Ingress: bool,
    pub Options: HashMap<String, String>,
    pub Labels: Option<HashMap<String, String>>,
}

/// The settings of a network to create; only `Name` is required.
#[allow(non_snake_case)]
#[derive(Debug, Clone)]
pub struct NetworkCreate {
    pub Name: String,
    pub CheckDuplicate: Option<bool>,
    pub Driver: Option<String>,
    pub Internal: Option<bool>,
    pub Attachable: Option<bool>,
    pub Ingress: Option<bool>,
    pub EnableIPv6: Option<bool>,
    pub Options: Option<HashMap<String, String>>,
    pub Labels: Option<HashMap<String, String>>,
}

impl Network {
    /// The network's id, which is how it is shown.
    pub fn to_string(&self) -> (r: String)
        ensures
            r@ == self.Id@,
    {
        self.Id.clone()
    }
}

impl NetworkCreate {
    /// The name, which is how the settings are shown.
    pub fn to_string(&self) -> (r: String)
        ensures
            r@ == self.Name@,
    {
        self.Name.clone()
    }
}

} // verus!
