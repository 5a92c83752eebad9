use docker_transport::container::{Container, ContainerCreate, HostConfig, PortBinding};
use docker_transport::image::ImageStatus;
use docker_transport::network::{Network, NetworkCreate};
use std::collections::HashMap;

fn container(status: &str) -> Container {
    Container {
        Id: "c1".to_string(),
        Image: "busybox".to_string(),
        Status: status.to_string(),
        Command: "sh".to_string(),
        Created: 1,
        Names: vec!["/c".to_string()],
        Ports: vec![],
        SizeRw: None,
        SizeRootFs: 0,
        Labels: None,
        HostConfig: HostConfig { NetworkMode: "default".to_string() },
    }
}

#[test]
fn container_running_state() {
    assert!(container("Up 3 hours").is_running());
    assert!(!container("Exited (0) 2 minutes ago").is_running());
    assert!(!container("").is_running());
}

#[test]
fn shown_by_identifier() {
    assert_eq!(container("Up").to_string(), "c1");
    let b = PortBinding { HostIp: None, HostPort: "8080".to_string() };
    assert_eq!(b.to_string(), "8080");
    let n = NetworkCreate {
        Name: "net".to_string(),
        CheckDuplicate: None,
        Driver: None,
        Internal: None,
        Attachable: None,
        Ingress: None,
        EnableIPv6: None,
        Options: None,
        Labels: None,
    };
    assert_eq!(n.to_string(), "net");
    let net = Network {
        Name: "bridge".to_string(),
        Id: "n1".to_string(),
        Created: String::new(),
        Scope: "local".to_string(),
        Driver: None,
        EnableIPv6: false,
        Internal: false,
        Attachable: false,
        Ingress: false,
        Options: HashMap::new(),
        Labels: None,
    };
    assert_eq!(net.to_string(), "n1");
}

#[test]
fn default_create_settings() {
    let c = ContainerCreate::default();
    assert_eq!(c.Image, "");
    assert!(c.Cmd.is_none() && c.HostConfig.is_none() && c.Labels.is_none());
    let mut d = ContainerCreate::default();
    d.Image = "alpine".to_string();
    assert_eq!(d.to_string(), "alpine");
}

#[test]
fn image_status_clone_keeps_fields() {
    let s = ImageStatus { status: Some("pulling".to_string()), error: Some("denied".to_string()) };
    let c = s.clone();
    assert_eq!(c.status, Some("pulling".to_string()));
    assert_eq!(c.error, Some("denied".to_string()));
}
