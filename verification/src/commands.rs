use vstd::prelude::*;

use crate::chart::{Chart, ChartView};
use crate::helm::Helm;

verus! {

// Each convergence operation is applied by running a package-manager
// command line.  The builders here are pure: they return the command for
// the surrounding program to run, and their contracts give the exact text.

/// The command that upgrades — or, where the release is absent, installs —
/// a chart in a namespace.
pub open spec fn upgrade_command(namespace: Seq<char>, c: ChartView) -> Seq<char> {
    match c.version {
        Option::Some(v) => "helm upgrade -i --namespace "@ + namespace + " --version "@ + v
            + " "@ + c.release + " stable/"@ + c.name,
        Option::None => "helm upgrade -i --namespace "@ + namespace + " "@ + c.release
            + " stable/"@ + c.name,
    }
}

/// The command that installs a chart in a namespace under its release
/// name.
pub open spec fn install_command(namespace: Seq<char>, c: ChartView) -> Seq<char> {
    match c.version {
        Option::Some(v) => "helm install --replace --namespace "@ + namespace + " --version "@
            + v + " -n "@ + c.release + " stable/"@ + c.name,
        Option::None => "helm install --replace --namespace "@ + namespace + " -n "@ + c.release
            + " stable/"@ + c.name,
    }
}

/// The command that deletes a release.
pub open spec fn delete_command(release: Seq<char>) -> Seq<char> {
    "helm delete "@ + release
}

impl Helm {
    /// Builds the upgrade command for a chart.  An absent version leaves
    /// the version flag off, so the remote default is used; upgrading a
    /// release that is not installed installs it.
    pub fn upgrade(&self, chart: &Chart) -> (r: String)
        ensures
            r@ == upgrade_command(self.namespace@, chart@),
    {
        let mut cmd = String::new();
        cmd.append("helm upgrade -i --namespace ");
        cmd.append(self.namespace.as_str());
        match &chart.version {
            Option::Some(v) => {
                cmd.append(" --version ");
                cmd.append(v.as_str());
            },
            Option::None => {},
        }
        cmd.append(" ");
        cmd.append(chart.release.as_str());
        cmd.append(" stable/");
        cmd.append(chart.name.as_str());
        proof {
            assert(cmd@ =~= upgrade_command(self.namespace@, chart@));
        }
        cmd
    }

    /// Builds the install command for a chart; an absent version leaves the
    /// version flag off.
    pub fn install(&self, chart: &Chart) -> (r: String)
        ensures
            r@ == install_command(self.namespace@, chart@),
    {
        let mut cmd = String::new();
        cmd.append("helm install --replace --namespace ");
        cmd.append(self.namespace.as_str());
        match &chart.version {
            Option::Some(v) => {
                cmd.append(" --version ");
                cmd.append(v.as_str());
            },
            Option::None => {},
        }
        cmd.append(" -n ");
        cmd.append(chart.release.as_str());
        cmd.append(" stable/");
        cmd.append(chart.name.as_str());
        proof {
            assert(cmd@ =~= install_command(self.namespace@, chart@));
        }
        cmd
    }

    /// Builds the delete command for a release.
    pub fn delete(&self, release: &str) -> (r: String)
        ensures
            r@ == delete_command(release@),
    {
        let mut cmd = String::new();
        cmd.append("helm delete ");
        cmd.append(release);
        proof {
            assert(cmd@ =~= delete_command(release@));
        }
        cmd
    }
}

} // verus!
