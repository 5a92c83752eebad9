//! Container records, as listed, inspected and created.
use vstd::prelude::*;
use std::collections::HashMap;

verus! {

/// A container as the listing reports it.
#[allow(non_snake_case)]
#[derive(Debug, Clone)]
pub struct Container {
    pub Id: String,
    pub Image: String,
    pub Status: String,
    pub Command: String,
    pub Created: u64,
    pub Names: Vec<String>,
    pub Ports: Vec<Port>,
    pub SizeRw: Option<u64>,
    pub SizeRootFs: u64,
    pub Labels: Option<HashMap<String, String>>,
    pub HostConfig: HostConfig,
}

/// A port of a container, published or not.
#[allow(non_snake_case)]
#[derive(Debug, Clone)]
pub struct Port {
    pub IP: Option<String>,
    pub PrivatePort: u64,
    pub PublicPort: Option<u64>,
    pub Type: String,
}

#[allow(non_snake_case)]
#[derive(Debug, Clone)]
pub struct HostConfig {
    pub NetworkMode: String,
}

/// A container as inspection reports it.
#[allow(non_snake_case)]
#[derive(Debug, Clone)]
pub struct ContainerInfo {
    pub AppArmorProfile: String,
    pub Args: Vec<String>,
    pub Created: String,
    pub Driver: String,
    pub ExecDriver: String,
    pub HostnamePath: String,
    pub HostsPath: String,
    pub LogPath: String,
    pub Id: String,
    pub Image: String,
    pub MountLabel: String,
    pub Name: String,
    pub Path: String,
    pub ProcessLabel: String,
    pub ResolvConfPath: String,
    pub RestartCount: u64,
    pub Volumes: HashMap<String, String>,
    pub VolumesRW: HashMap<String, bool>,
}

/// A host port that a container port is published on.
#[allow(non_snake_case)]
#[derive(Debug, Clone)]
pub struct PortBinding {
    pub HostIp: Option<String>,
    pub HostPort: String,
}

/// Host settings of a container to create.
#[allow(non_snake_case)]
#[derive(Debug, Clone)]
pub struct HostConfigCreate {
    pub NetworkMode: Option<String>,
    pub PublishAllPorts: Option<bool>,
    pub PortBindings: Option<HashMap<String, Vec<PortBinding>>>,
    pub AutoRemove: Option<bool>,
    pub Binds: Option<Vec<String>>,
}

/// The settings of a container to create; only `Image` is required.
#[allow(non_snake_case)]
#[derive(Debug, Clone)]
pub struct ContainerCreate {
    pub Hostname: Option<String>,
    pub Domainname: Option<String>,
    pub User: Option<String>,
    pub AttachStdin: Option<bool>,
    pub AttachStdout: Option<bool>,
    pub AttachStderr: Option<bool>,
    pub ExposedPorts: Option<HashMap<String, EmptyObject>>,
    pub Tty: Option<bool>,
    pub OpenStdin: Option<bool>,
    pub StdinOnce: Option<bool>,
    pub Env: Option<Vec<String>>,
    pub Cmd: Option<Vec<String>>,
    pub ArgsEscaped: Option<bool>,
    pub Image: String,
    pub Volumes: Option<HashMap<String, EmptyObject>>,
    pub WorkingDir: Option<String>,
    pub Entrypoint: Option<Vec<String>>,
    pub NetworkDisabled: Option<bool>,
    pub MacAddress: Option<String>,
    pub OnBuild: Option<Vec<String>>,
    pub Labels: Option<HashMap<String, String>>,
    pub StopSignal: Option<String>,
    pub StopTimeout: Option<u64>,
    pub Shell: Option<Vec<String>>,
    pub HostConfig: Option<HostConfigCreate>,
}

/// The JSON value `{}`.
#[derive(Debug, Clone, Copy)]
pub struct EmptyObject {}

/// `s` holds `Up`.
pub open spec fn says_up(s: Seq<char>) -> bool {
    exists|j: int| 0 <= j && j + 2 <= s.len() && #[trigger] s[j] == 'U' && s[j + 1] == 'p'
}

impl Container {
    /// The container's id, which is how it is shown.
    pub fn to_string(&self) -> (r: String)
        ensures
            r@ == self.Id@,
    {
        self.Id.clone()
    }

    /// Whether the status reports the container as up.
    pub fn is_running(&self) -> (r: bool)
        ensures
            r == says_up(self.Status@),
    {
        let s = self.Status.as_str();
        let n = s.unicode_len();
        let mut j: usize = 0;
        while j < n && n - j >= 2
            invariant
                n == s@.len(),
                j <= n,
                s@ == self.Status@,
                forall|k: int| 0 <= k < j ==> !(#[trigger] s@[k] == 'U' && s@[k + 1] == 'p'),
            decreases n - j,
        {
            if s.get_char(j) == 'U' && s.get_char(j + 1) == 'p' {
                return true;
            }
            j = j + 1;
        }
        false
    }
}

impl ContainerInfo {
    /// The container's id, which is how it is shown.
    pub fn to_string(&self) -> (r: String)
        ensures
            r@ == self.Id@,
    {
        self.Id.clone()
    }
}

impl PortBinding {
    /// The host port, which is how a binding is shown.
    pub fn to_string(&self) -> (r: String)
        ensures
            r@ == self.HostPort@,
    {
        self.HostPort.clone()
    }
}

impl ContainerCreate {
    /// The image, which is how the settings are shown.
    pub fn to_string(&self) -> (r: String)
        ensures
            r@ == self.Image@,
    {
        self.Image.clone()
    }
}

impl Default for ContainerCreate {
    fn default() -> (r: ContainerCreate)
        ensures
            r.Image@ == Seq::<char>::empty(),
            r.Hostname is None && r.Domainname is None && r.User is None,
            r.AttachStdin is None && r.AttachStdout is None && r.AttachStderr is None,
            r.ExposedPorts is None && r.Tty is None && r.OpenStdin is None && r.StdinOnce is None,
            r.Env is None && r.Cmd is None && r.ArgsEscaped is None && r.Volumes is None,
            r.WorkingDir is None && r.Entrypoint is None && r.NetworkDisabled is None,
            r.MacAddress is None && r.OnBuild is None && r.Labels is None,
            r.StopSignal is None && r.StopTimeout is None && r.Shell is None && r.HostConfig is None,
    {
        ContainerCreate {
            Hostname: None,
            Domainname: None,
            User: None,
            AttachStdin: None,
            AttachStdout: None,
            AttachStderr: None,
            ExposedPorts: None,
            Tty: None,
            OpenStdin: None,
            StdinOnce: None,
            Env: None,
            Cmd: None,
            ArgsEscaped: None,
            Image: String::new(),
            Volumes: None,
            WorkingDir: None,
            Entrypoint: None,
            NetworkDisabled: None,
            MacAddress: None,
            OnBuild: None,
            Labels: None,
            StopSignal: None,
            StopTimeout: None,
            Shell: None,
            HostConfig: None,
        }
    }
}

} // verus!
