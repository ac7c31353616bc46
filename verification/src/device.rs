//! The device identity model: one comparable record per attached USB device,
//! with one nested record per USB configuration.
//!
//! Equality is deliberately positional on the configuration list: two records
//! whose configuration lists hold the same entries in a different order
//! compare unequal.  Records with configuration lists of different lengths
//! compare unequal as well.

use vstd::prelude::*;
use vstd::string::StringExecFns;
use crate::digits::{dec_rep, append_dec};

verus! {

/// Mathematical value of a [`Config`].
#[verifier::ext_equal]
pub ghost struct ConfigV {
    pub config_num: u8,
    pub max_power: u16,
    pub internal_powered: bool,
    pub remote_wakeup: bool,
    pub config_str: Seq<char>,
}

/// One USB configuration of a device, as captured during enumeration.
#[verifier::ext_equal]
pub struct Config {
    pub config_num: u8,
    pub max_power: u16,
    pub internal_powered: bool,
    pub remote_wakeup: bool,
    pub config_str: String,
}

impl View for Config {
    type V = ConfigV;

    open spec fn view(&self) -> ConfigV {
        ConfigV {
            config_num: self.config_num,
            max_power: self.max_power,
            internal_powered: self.internal_powered,
            remote_wakeup: self.remote_wakeup,
            config_str: self.config_str@,
        }
    }
}

/// Two configuration records are equal exactly when every field matches,
/// the description string included.
pub open spec fn config_eq(a: ConfigV, b: ConfigV) -> bool {
    &&& a.config_num == b.config_num
    &&& a.max_power == b.max_power
    &&& a.internal_powered == b.internal_powered
    &&& a.remote_wakeup == b.remote_wakeup
    &&& a.config_str == b.config_str
}

/// Placeholder recorded when a configuration's string descriptor is missing
/// or unreadable.
pub open spec fn no_config_description() -> Seq<char> {
    "No config description"@
}

impl Config {
    /// Builds the record for one configuration from the raw descriptor
    /// fields.  `config_str` is the outcome of reading the configuration's
    /// string descriptor: an unreadable descriptor (`None`) is replaced by a
    /// fixed placeholder instead of failing the record.
    pub fn new(
        config_num: u8,
        max_power: u16,
        internal_powered: bool,
        remote_wakeup: bool,
        config_str: Option<String>,
    ) -> (r: Config)
        ensures
            r@.config_num == config_num,
            r@.max_power == max_power,
            r@.internal_powered == internal_powered,
            r@.remote_wakeup == remote_wakeup,
            r@.config_str == match config_str {
                Some(s) => s@,
                None => no_config_description(),
            },
    {
        let cs = match config_str {
            Some(s) => s,
            None => "No config description".to_owned(),
        };
        Config {
            config_num,
            max_power,
            internal_powered,
            remote_wakeup,
            config_str: cs,
        }
    }
}

impl PartialEq for Config {
    fn eq(&self, other: &Self) -> (r: bool) {
        self.config_num == other.config_num && self.max_power == other.max_power
            && self.internal_powered == other.internal_powered && self.remote_wakeup
            == other.remote_wakeup && self.config_str == other.config_str
    }
}

impl vstd::std_specs::cmp::PartialEqSpecImpl for Config {
    open spec fn obeys_eq_spec() -> bool {
        true
    }

    open spec fn eq_spec(&self, other: &Config) -> bool {
        config_eq(self@, other@)
    }
}

impl Clone for Config {
    fn clone(&self) -> (r: Self)
        ensures
            r == *self,
    {
        let r = Config {
            config_num: self.config_num,
            max_power: self.max_power,
            internal_powered: self.internal_powered,
            remote_wakeup: self.remote_wakeup,
            config_str: self.config_str.clone(),
        };
        proof {
            assert(r =~= *self);
        }
        r
    }
}

/// Mathematical value of a [`Dev`].
#[verifier::ext_equal]
pub ghost struct DevV {
    pub product: Seq<char>,
    pub manufacturer: Seq<char>,
    pub serial_num: Seq<char>,
    pub bus_number: u8,
    pub address: u8,
    pub d_version_major: u8,
    pub d_version_minor: u8,
    pub d_version_sub: u8,
    pub d_class: u8,
    pub d_subclass: u8,
    pub d_proto: u8,
    pub d_vendor_id: u16,
    pub d_product_id: u16,
    pub configs: Seq<ConfigV>,
}

/// All of the observable attributes of one attached USB device.
#[verifier::ext_equal]
pub struct Dev {
    pub product: String,
    pub manufacturer: String,
    pub serial_num: String,
    pub bus_number: u8,
    pub address: u8,
    pub d_version_major: u8,
    pub d_version_minor: u8,
    pub d_version_sub: u8,
    pub d_class: u8,
    pub d_subclass: u8,
    pub d_proto: u8,
    pub d_vendor_id: u16,
    pub d_product_id: u16,
    pub configs: Vec<Config>,
}

/// The configuration records of a snapshot of configurations, as values.
pub open spec fn configs_view(s: Seq<Config>) -> Seq<ConfigV> {
    s.map_values(|c: Config| c@)
}

impl View for Dev {
    type V = DevV;

    open spec fn view(&self) -> DevV {
        DevV {
            product: self.product@,
            manufacturer: self.manufacturer@,
            serial_num: self.serial_num@,
            bus_number: self.bus_number,
            address: self.address,
            d_version_major: self.d_version_major,
            d_version_minor: self.d_version_minor,
            d_version_sub: self.d_version_sub,
            d_class: self.d_class,
            d_subclass: self.d_subclass,
            d_proto: self.d_proto,
            d_vendor_id: self.d_vendor_id,
            d_product_id: self.d_product_id,
            configs: configs_view(self.configs@),
        }
    }
}

/// Two device records are equal exactly when every scalar and string field
/// matches, their configuration lists have the same length, and the
/// configurations match pairwise at the same position.  A reordered but
/// otherwise identical configuration list therefore makes the records
/// unequal.
pub open spec fn dev_eq(a: DevV, b: DevV) -> bool {
    &&& a.configs.len() == b.configs.len()
    &&& forall|i: int| 0 <= i < a.configs.len() ==> config_eq(a.configs[i], b.configs[i])
    &&& a.product == b.product
    &&& a.manufacturer == b.manufacturer
    &&& a.serial_num == b.serial_num
    &&& a.bus_number == b.bus_number
    &&& a.address == b.address
    &&& a.d_version_major == b.d_version_major
    &&& a.d_version_minor == b.d_version_minor
    &&& a.d_version_sub == b.d_version_sub
    &&& a.d_class == b.d_class
    &&& a.d_subclass == b.d_subclass
    &&& a.d_proto == b.d_proto
    &&& a.d_vendor_id == b.d_vendor_id
    &&& a.d_product_id == b.d_product_id
}

/// Placeholder recorded when the manufacturer string descriptor is missing
/// or unreadable.
pub open spec fn no_manufacturer_information() -> Seq<char> {
    "No Manufacturer Information Available"@
}

/// Placeholder recorded when the product string descriptor is missing or
/// unreadable.
pub open spec fn no_product_information() -> Seq<char> {
    "No Product Information Available"@
}

/// Placeholder recorded when the serial number string descriptor is missing
/// or unreadable.
pub open spec fn no_serial_number() -> Seq<char> {
    "No Serial Number Available"@
}

impl Dev {
    /// Builds the record for one device from its raw descriptor fields.
    ///
    /// Each of the three string descriptors is passed as the outcome of its
    /// read: a failed read (`None`) is replaced by that field's fixed
    /// placeholder, never failing the whole record.  `configs` holds one
    /// record per configuration descriptor index, in descriptor order.
    pub fn new(
        bus_number: u8,
        address: u8,
        d_version_major: u8,
        d_version_minor: u8,
        d_version_sub: u8,
        d_class: u8,
        d_subclass: u8,
        d_proto: u8,
        d_vendor_id: u16,
        d_product_id: u16,
        manufacturer: Option<String>,
        product: Option<String>,
        serial_num: Option<String>,
        configs: Vec<Config>,
    ) -> (r: Dev)
        ensures
            r@.bus_number == bus_number,
            r@.address == address,
            r@.d_version_major == d_version_major,
            r@.d_version_minor == d_version_minor,
            r@.d_version_sub == d_version_sub,
            r@.d_class == d_class,
            r@.d_subclass == d_subclass,
            r@.d_proto == d_proto,
            r@.d_vendor_id == d_vendor_id,
            r@.d_product_id == d_product_id,
            r@.manufacturer == match manufacturer {
                Some(s) => s@,
                None => no_manufacturer_information(),
            },
            r@.product == match product {
                Some(s) => s@,
                None => no_product_information(),
            },
            r@.serial_num == match serial_num {
                Some(s) => s@,
                None => no_serial_number(),
            },
            r@.configs == configs_view(configs@),
    {
        let manufacturer = match manufacturer {
            Some(s) => s,
            None => "No Manufacturer Information Available".to_owned(),
        };
        let product = match product {
            Some(s) => s,
            None => "No Product Information Available".to_owned(),
        };
        let serial_num = match serial_num {
            Some(s) => s,
            None => "No Serial Number Available".to_owned(),
        };
        Dev {
            product,
            manufacturer,
            serial_num,
            bus_number,
            address,
            d_version_major,
            d_version_minor,
            d_version_sub,
            d_class,
            d_subclass,
            d_proto,
            d_vendor_id,
            d_product_id,
            configs,
        }
    }
}

impl PartialEq for Dev {
    fn eq(&self, other: &Self) -> (r: bool) {
        if self.configs.len() != other.configs.len() {
            return false;
        }
        let n = self.configs.len();
        let mut i: usize = 0;
        while i < n
            invariant
                n == self.configs@.len(),
                n == other.configs@.len(),
                i <= n,
                forall|k: int| 0 <= k < i ==> config_eq(self@.configs[k], other@.configs[k]),
            decreases n - i,
        {
            proof {
                assert(self@.configs[i as int] == self.configs@[i as int]@);
                assert(other@.configs[i as int] == other.configs@[i as int]@);
            }
            if !(self.configs[i] == other.configs[i]) {
                return false;
            }
            i += 1;
        }
        self.product == other.product && self.manufacturer == other.manufacturer
            && self.serial_num == other.serial_num && self.bus_number == other.bus_number
            && self.address == other.address && self.d_version_major == other.d_version_major
            && self.d_version_minor == other.d_version_minor && self.d_version_sub
            == other.d_version_sub && self.d_class == other.d_class && self.d_subclass
            == other.d_subclass && self.d_proto == other.d_proto && self.d_vendor_id
            == other.d_vendor_id && self.d_product_id == other.d_product_id
    }
}

impl vstd::std_specs::cmp::PartialEqSpecImpl for Dev {
    open spec fn obeys_eq_spec() -> bool {
        true
    }

    open spec fn eq_spec(&self, other: &Dev) -> bool {
        dev_eq(self@, other@)
    }
}

impl Clone for Dev {
    fn clone(&self) -> (r: Self)
        ensures
            r@ == self@,
    {
        let mut configs: Vec<Config> = Vec::new();
        let mut i: usize = 0;
        let n = self.configs.len();
        while i < n
            invariant
                n == self.configs@.len(),
                i <= n,
                configs@ == self.configs@.take(i as int),
            decreases n - i,
        {
            configs.push(self.configs[i].clone());
            proof {
                assert(configs@ =~= self.configs@.take(i + 1));
            }
            i += 1;
        }
        proof {
            assert(configs@ =~= self.configs@);
        }
        let r = Dev {
            product: self.product.clone(),
            manufacturer: self.manufacturer.clone(),
            serial_num: self.serial_num.clone(),
            bus_number: self.bus_number,
            address: self.address,
            d_version_major: self.d_version_major,
            d_version_minor: self.d_version_minor,
            d_version_sub: self.d_version_sub,
            d_class: self.d_class,
            d_subclass: self.d_subclass,
            d_proto: self.d_proto,
            d_vendor_id: self.d_vendor_id,
            d_product_id: self.d_product_id,
            configs,
        };
        proof {
            assert(r@ =~= self@);
        }
        r
    }
}

/// The human-readable multi-line summary of a device record.
pub open spec fn summary_of(d: DevV) -> Seq<char> {
    "\tProduct="@ + d.product + "\n\tManufacturer="@ + d.manufacturer + "\n\tSerial Number="@
        + d.serial_num + "\n\tBus Number="@ + dec_rep(d.bus_number as nat) + "\n\tAddress="@
        + dec_rep(d.address as nat) + "\n\tUSB Version="@ + dec_rep(d.d_version_major as nat)
        + "."@ + dec_rep(d.d_version_minor as nat) + "."@ + dec_rep(d.d_version_sub as nat)
        + "\n\tUSB Class="@ + dec_rep(d.d_class as nat) + "\n\tSubclass="@ + dec_rep(
        d.d_subclass as nat,
    ) + "\n\tProtocol="@ + dec_rep(d.d_proto as nat) + "\n\tVendor Id="@ + dec_rep(
        d.d_vendor_id as nat,
    ) + "\n\tProduct ID="@ + dec_rep(d.d_product_id as nat)
}

impl Dev {
    /// The human-readable multi-line summary of this record, as printed
    /// under an alert.
    pub fn summary(&self) -> (r: String)
        ensures
            r@ == summary_of(self@),
    {
        let mut out = String::new();
        out.append("\tProduct=");
        out.append(self.product.as_str());
        out.append("\n\tManufacturer=");
        out.append(self.manufacturer.as_str());
        out.append("\n\tSerial Number=");
        out.append(self.serial_num.as_str());
        out.append("\n\tBus Number=");
        append_dec(&mut out, self.bus_number as u16);
        out.append("\n\tAddress=");
        append_dec(&mut out, self.address as u16);
        out.append("\n\tUSB Version=");
        append_dec(&mut out, self.d_version_major as u16);
        out.append(".");
        append_dec(&mut out, self.d_version_minor as u16);
        out.append(".");
        append_dec(&mut out, self.d_version_sub as u16);
        out.append("\n\tUSB Class=");
        append_dec(&mut out, self.d_class as u16);
        out.append("\n\tSubclass=");
        append_dec(&mut out, self.d_subclass as u16);
        out.append("\n\tProtocol=");
        append_dec(&mut out, self.d_proto as u16);
        out.append("\n\tVendor Id=");
        append_dec(&mut out, self.d_vendor_id);
        out.append("\n\tProduct ID=");
        append_dec(&mut out, self.d_product_id);
        proof {
            assert(out@ =~= summary_of(self@));
        }
        out
    }
}

/// Record equality is reflexive: every configuration record equals itself.
pub proof fn lemma_config_eq_reflexive(a: ConfigV)
    ensures
        config_eq(a, a),
{
}

/// Record equality is symmetric for configuration records.
pub proof fn lemma_config_eq_symmetric(a: ConfigV, b: ConfigV)
    ensures
        config_eq(a, b) == config_eq(b, a),
{
}

/// Record equality is transitive for configuration records.
pub proof fn lemma_config_eq_transitive(a: ConfigV, b: ConfigV, c: ConfigV)
    requires
        config_eq(a, b),
        config_eq(b, c),
    ensures
        config_eq(a, c),
{
}

/// Record equality is reflexive: every device record equals itself.
pub proof fn lemma_dev_eq_reflexive(a: DevV)
    ensures
        dev_eq(a, a),
{
}

/// Record equality is symmetric for device records.
pub proof fn lemma_dev_eq_symmetric(a: DevV, b: DevV)
    ensures
        dev_eq(a, b) == dev_eq(b, a),
{
}

/// Record equality is transitive for device records.
pub proof fn lemma_dev_eq_transitive(a: DevV, b: DevV, c: DevV)
    requires
        dev_eq(a, b),
        dev_eq(b, c),
    ensures
        dev_eq(a, c),
{
    assert forall|i: int| 0 <= i < a.configs.len() implies config_eq(
        a.configs[i],
        c.configs[i],
    ) by {
        assert(config_eq(a.configs[i], b.configs[i]));
        assert(config_eq(b.configs[i], c.configs[i]));
    }
}

/// Reordering an otherwise identical configuration list changes the record:
/// if `b` holds the same configurations as `a` as a multiset, with the same
/// scalar fields, but at least one position differs, the two records compare
/// unequal.  (For an actual permutation some position always differs; the
/// identity permutation is the one exception.)
pub proof fn lemma_reordered_configs_unequal(a: DevV, b: DevV)
    requires
        a.configs.to_multiset() == b.configs.to_multiset(),
        exists|i: int|
            0 <= i < a.configs.len() && 0 <= i < b.configs.len() && !config_eq(
                a.configs[i],
                b.configs[i],
            ),
        a.product == b.product,
        a.manufacturer == b.manufacturer,
        a.serial_num == b.serial_num,
        a.bus_number == b.bus_number,
        a.address == b.address,
        a.d_version_major == b.d_version_major,
        a.d_version_minor == b.d_version_minor,
        a.d_version_sub == b.d_version_sub,
        a.d_class == b.d_class,
        a.d_subclass == b.d_subclass,
        a.d_proto == b.d_proto,
        a.d_vendor_id == b.d_vendor_id,
        a.d_product_id == b.d_product_id,
    ensures
        !dev_eq(a, b),
{
    let i = choose|i: int|
        0 <= i < a.configs.len() && 0 <= i < b.configs.len() && !config_eq(
            a.configs[i],
            b.configs[i],
        );
    assert(!config_eq(a.configs[i], b.configs[i]));
}

} // verus!
