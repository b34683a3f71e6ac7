use vstd::prelude::*;

use crate::chart::{Charts, ChartView, repeated_key, unique_keys, views};
use crate::digest::{compute_digest, digest_spec, is_lower_hex_digit};
use crate::error::HelmError;
use crate::plan::{
    compute_plan, DiffMode, normalize, Op, op_order, op_views, plan_delete, plan_install,
    plan_upgrade, PlanView, sequence_plan,
};

verus! {

/// The cluster coordinates and credentials a request carries: where to
/// connect, as whom, in which namespace, and what TLS trust to use.
pub struct Source {
    pub url: String,
    pub username: String,
    pub password: String,
    pub namespace: String,
    pub skip_tls_verify: Option<bool>,
    pub ca_data: Option<String>,
}

/// The connection configuration the package-manager layer is set up from;
/// the same coordinates as [`Source`], after validation.
pub struct Config {
    pub url: String,
    pub username: String,
    pub password: String,
    pub namespace: String,
    pub skip_tls_verify: Option<bool>,
    pub ca_data: Option<String>,
}

/// Whether the TLS stance of a configuration is sound: either trust
/// material is supplied, or verification is explicitly disabled.  Silently
/// connecting without either is refused.
pub open spec fn tls_config_ok(ca_data: Option<Seq<char>>, skip_tls_verify: Option<bool>) -> bool {
    ca_data is Some || skip_tls_verify == Option::Some(true)
}

impl Config {
    pub open spec fn ca_data_view(&self) -> Option<Seq<char>> {
        match self.ca_data {
            Option::Some(c) => Option::Some(c@),
            Option::None => Option::None,
        }
    }

    /// Checks the configuration invariant that connecting requires: TLS
    /// trust material, unless verification was explicitly switched off.
    pub fn validate(&self) -> (r: Result<(), HelmError>)
        ensures
            tls_config_ok(self.ca_data_view(), self.skip_tls_verify) ==> r == Result::<
                (),
                HelmError,
            >::Ok(()),
            !tls_config_ok(self.ca_data_view(), self.skip_tls_verify) ==> r == Result::<
                (),
                HelmError,
            >::Err(HelmError::NoCaData),
    {
        let skip = match self.skip_tls_verify {
            Option::Some(b) => b,
            Option::None => false,
        };
        if self.ca_data.is_none() && !skip {
            Err(HelmError::NoCaData)
        } else {
            Ok(())
        }
    }
}

impl From<Source> for Config {
    /// Carries a request's coordinates over into a connection
    /// configuration, field for field.
    fn from(s: Source) -> (r: Self) {
        Config {
            url: s.url,
            username: s.username,
            password: s.password,
            namespace: s.namespace,
            skip_tls_verify: s.skip_tls_verify,
            ca_data: s.ca_data,
        }
    }
}

impl vstd::std_specs::convert::FromSpecImpl<Source> for Config {
    open spec fn obeys_from_spec() -> bool {
        true
    }

    open spec fn from_spec(s: Source) -> Self {
        Config {
            url: s.url,
            username: s.username,
            password: s.password,
            namespace: s.namespace,
            skip_tls_verify: s.skip_tls_verify,
            ca_data: s.ca_data,
        }
    }
}

/// The version marker of the protocol envelope: the digest of cluster
/// state.
pub struct Version {
    pub digest: String,
}

/// A change-detection or fetch request: the cluster coordinates, and the
/// last version the orchestrator saw, if any.
pub struct CheckRequest {
    pub source: Source,
    pub version: Option<Version>,
}

pub type InRequest = CheckRequest;

/// The reply to a fetch or a convergence: the digest as the new version,
/// and the deployed charts as metadata.
pub struct InResponse {
    pub version: Version,
    pub metadata: Charts,
}

/// Answers a change-detection request from the deployed chart set: a
/// one-element list carrying the current digest.
pub fn request_check(deployed: &Charts) -> (r: Vec<Version>)
    ensures
        r@.len() == 1,
        r@[0].digest@ == digest_spec(views(deployed@)),
        r@[0].digest@.len() == 32,
        forall|i: int| 0 <= i < r@[0].digest@.len() ==> is_lower_hex_digit(
            #[trigger] r@[0].digest@[i],
        ),
{
    let mut r: Vec<Version> = Vec::new();
    r.push(Version { digest: compute_digest(deployed) });
    r
}

/// Answers a fetch request from the deployed chart set: the digest as the
/// version, the charts themselves as metadata.
pub fn request_in(deployed: Charts) -> (r: InResponse)
    ensures
        r.version.digest@ == digest_spec(views(deployed@)),
        r.version.digest@.len() == 32,
        forall|i: int| 0 <= i < r.version.digest@.len() ==> is_lower_hex_digit(
            #[trigger] r.version.digest@[i],
        ),
        r.metadata == deployed,
{
    let digest = compute_digest(&deployed);
    InResponse { version: Version { digest }, metadata: deployed }
}

/// The reconciliation outcome for a deployed and a desired set, as one
/// value.
pub open spec fn plan_of(d: Seq<ChartView>, s: Seq<ChartView>, mode: DiffMode) -> PlanView {
    PlanView {
        to_install: plan_install(d, s),
        to_upgrade: plan_upgrade(d, s, mode),
        to_delete: plan_delete(d, s),
    }
}

/// Decides a convergence request: normalizes the desired set, reconciles
/// it against the deployed set, and sequences the resulting operations in
/// execution order — upgrades, then installs, then deletions.  A desired
/// set that names a release twice is rejected as a configuration error.
pub fn request_out(deployed: &Charts, desired: Charts, mode: DiffMode) -> (r: Result<
    Vec<Op>,
    HelmError,
>)
    ensures
        unique_keys(views(desired@)) ==> (r matches Ok(ops) && op_views(ops@) == op_order(
            plan_of(views(deployed@), views(desired@), mode),
        )),
        !unique_keys(views(desired@)) ==> (r matches Err(HelmError::DuplicateRelease(k))
            && repeated_key(views(desired@), k@)),
{
    let ghost dv = views(deployed@);
    let ghost sv = views(desired@);
    match normalize(desired) {
        Ok(target) => {
            let plan = compute_plan(deployed, &target, mode);
            proof {
                assert(plan@ =~= plan_of(dv, sv, mode));
            }
            Ok(sequence_plan(&plan))
        },
        Err(e) => Err(e),
    }
}

} // verus!
