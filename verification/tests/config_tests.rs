use rsync::client::{NetworkClient, TcpClient, UdpClient};
use rsync::server::{TcpServer, UdpServer};

#[test]
fn clients_hold_their_address() {
    let tcp = TcpClient::new("127.0.0.1:4000");
    assert_eq!(tcp.address, "127.0.0.1:4000");
    let udp = UdpClient::new("127.0.0.1:4001");
    assert_eq!(udp.address, "127.0.0.1:4001");
}

#[test]
fn network_client_reports_either_transport() {
    let tcp = NetworkClient::TCP(TcpClient::new("tcp-host:1"));
    assert_eq!(tcp.address(), "tcp-host:1");
    let udp = NetworkClient::UDP(UdpClient::new("udp-host:2"));
    assert_eq!(udp.address(), "udp-host:2");
}

#[test]
fn servers_hold_their_address() {
    let tcp = TcpServer::new("0.0.0.0:9000");
    assert_eq!(tcp.address, "0.0.0.0:9000");
    let udp = UdpServer::new("0.0.0.0:9001");
    assert_eq!(udp.address, "0.0.0.0:9001");
}
