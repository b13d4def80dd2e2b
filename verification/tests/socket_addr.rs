use raknet::address::SocketAddress;
use raknet::reader::DataReader;
use raknet::writer::write_socket_addr;

#[test]
fn read_socket_addr_ipv4() {
    let buf = vec![0x04u8, !192, !168, !1, !248, 0x12, 0x34];
    let mut reader = DataReader::new(&buf);

    let socket_addr = reader.read_socket_addr().expect("Could not read SocketAddr");

    assert_eq!(SocketAddress::v4([192, 168, 1, 248], 0x1234), socket_addr);
}

#[test]
fn read_socket_addr_ipv6() {
    let buf = vec![
        6u8, // IP version = 6
        0x18, 0x00, // sin6_family (little endian): 0x0018=24=AF_INET6
        0x12, 0x34, // sin6_port (big endian): 0x1234
        0x78, 0x56, 0x34, 0x12, // sin6_flowinfo (little endian): 0x12345678
        0xfe, 0x80, 0x00, 0x00, 0x00, 0x00, 0x00, 0x00, 0x00, 0x08, 0xe0, 0x05, 0x63, 0xd8, 0x39, 0x49, // sin6_addr: fe80::8:e005:63d8:3949
        0x44, 0x33, 0x22, 0x11, // sin6_scope_id (little endian): 0x11223344
    ];
    let mut reader = DataReader::new(&buf);

    let socket_addr = reader.read_socket_addr().expect("Could not read SocketAddr");

    if let SocketAddress::V6 { ip, port, flowinfo, scope_id } = socket_addr {
        assert_eq!(0x1234, port);
        assert_eq!(0x12345678, flowinfo);
        assert_eq!([0xfe, 0x80, 0x00, 0x00, 0x00, 0x00, 0x00, 0x00, 0x00, 0x08, 0xe0, 0x05, 0x63, 0xd8, 0x39, 0x49], ip.to_be_bytes());
        assert_eq!(0x11223344, scope_id);
    } else {
        panic!("Did not receive IP V6");
    }
}

#[test]
fn write_socket_addr_ipv4() {
    let socket_addr = SocketAddress::v4([192, 168, 1, 248], 0x1234);
    let mut buf = Vec::new();

    let bytes_written = write_socket_addr(&mut buf, &socket_addr);

    assert_eq!(7, bytes_written);
    assert_eq!(vec![0x04u8, !192, !168, !1, !248, 0x12, 0x34], buf);
}

#[test]
fn write_socket_addr_ipv6() {
    let ip = [0xfe, 0x80, 0x00, 0x00, 0x00, 0x00, 0x00, 0x00, 0x00, 0x08, 0xe0, 0x05, 0x63, 0xd8, 0x39, 0x49];
    let port = 0x1234;
    let flowinfo = 0x12345678;
    let scope_id = 0x11223344;
    let socket_addr = SocketAddress::v6(ip, port, flowinfo, scope_id);
    let mut buf = Vec::new();

    let bytes_written = write_socket_addr(&mut buf, &socket_addr);

    assert_eq!(29, bytes_written);
    assert_eq!(vec![
        6u8, // IP version = 6
        0x18, 0x00, // sin6_family (little endian): 0x0018=24=AF_INET6
        0x12, 0x34, // sin6_port (big endian): 0x1234
        0x78, 0x56, 0x34, 0x12, // sin6_flowinfo (little endian): 0x12345678
        0xfe, 0x80, 0x00, 0x00, 0x00, 0x00, 0x00, 0x00, 0x00, 0x08, 0xe0, 0x05, 0x63, 0xd8, 0x39, 0x49, // sin6_addr: fe80::8:e005:63d8:3949
        0x44, 0x33, 0x22, 0x11, // sin6_scope_id (little endian): 0x11223344
    ], buf);
}

#[test]
fn written_socket_addr_reads_back() {
    let addr = SocketAddress::v4([10, 0, 0, 7], 19132);
    let mut buf = Vec::new();
    write_socket_addr(&mut buf, &addr);
    let mut reader = DataReader::new(&buf);
    assert_eq!(reader.read_socket_addr(), Ok(addr));
}

#[test]
fn read_socket_addr_invalid_version_fails() {
    let buf = vec![0x05u8, 0, 0, 0, 0, 0, 0];
    let mut reader = DataReader::new(&buf);
    assert_eq!(
        reader.read_socket_addr(),
        Err(raknet::error::Error::ReadError(raknet::error::ReadError::InvalidIpVersion))
    );
}
