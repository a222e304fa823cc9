use mac_gate::addr::Ipv4Addr;
use mac_gate::geo::{asking, code, country, host_of, majority, service_address, services};

use hickory_proto::op::{Message, MessageType, OpCode};
use hickory_proto::rr::rdata::A;
use hickory_proto::rr::{Name, RData, Record};

#[test]
fn codes_in_answers() {
    let trace = "fl=123\nh=1.1.1.1\nip=203.0.113.7\ncolo=XYZ\nhttp=http/2\nloc=DE\ntls=TLSv1.3\n";
    assert_eq!(code(trace).as_deref(), Some("DE"));
    assert_eq!(code("FR\n").as_deref(), Some("FR"));
    assert_eq!(code("  NL  ").as_deref(), Some("NL"));
    assert_eq!(code("<html>not found</html>"), None);
    assert_eq!(code("de\n"), None);
    assert_eq!(code(""), None);
}

fn ok(c: &str) -> Result<String, String> {
    Ok(c.to_owned())
}

fn fail() -> Result<String, String> {
    Err("x".to_owned())
}

#[test]
fn answers_in_any_order() {
    let all = [ok("FR"), ok("DE"), fail(), ok("DE")];
    for i in 0..4 {
        for j in 0..4 {
            let mut v = all.to_vec();
            v.swap(i, j);
            assert_eq!(majority(&v).as_deref(), Some("DE"));
        }
    }
}

#[test]
fn most_answers_agree() {
    assert_eq!(
        majority(&vec![ok("DE"), ok("DE"), ok("FR")]).as_deref(),
        Some("DE")
    );
    assert_eq!(
        majority(&vec![ok("DE"), fail(), ok("DE")]).as_deref(),
        Some("DE")
    );
    assert_eq!(
        majority(&vec![ok("DE"), fail(), fail()]).as_deref(),
        Some("DE")
    );
    assert_eq!(majority(&vec![ok("DE"), ok("FR"), fail()]), None);
    assert_eq!(majority(&vec![ok("DE"), ok("FR"), ok("NL")]), None);
    assert_eq!(majority(&vec![fail(), fail(), fail()]), None);
    assert_eq!(host_of(&services()[1]).as_deref(), Some("ipinfo.io"));
}

#[test]
fn what_the_services_said() {
    let a = country(&services(), &vec![ok("DE"), fail(), ok("DE")]);
    assert_eq!(a.country.as_deref(), Some("DE"));
    assert_eq!(a.shown, "1.1.1.1=DE ipinfo.io=(x) ifconfig.co=DE");
}

#[test]
fn how_a_service_is_asked() {
    let url = services()[1].clone();
    let args = asking(&url, "ipinfo.io", Ipv4Addr::new(34, 117, 59, 81), "en0", false).unwrap();
    assert_eq!(
        args,
        [
            "-s",
            "-f",
            "-m",
            "5",
            "--interface",
            "en0",
            "--resolve",
            "ipinfo.io:443:34.117.59.81",
            "https://ipinfo.io/country",
        ]
    );
    let held = asking(&url, "ipinfo.io", Ipv4Addr::new(34, 117, 59, 81), "en0", true);
    assert_eq!(held.unwrap_err(), "34.117.59.81 listed");
}

#[test]
fn the_address_of_a_service() {
    let answer = |ips: &[[u8; 4]]| {
        let mut m = Message::new(7, MessageType::Response, OpCode::Query);
        for ip in ips {
            m.add_answer(Record::from_rdata(
                Name::from_ascii("ipinfo.io.").unwrap(),
                60,
                RData::A(A::new(ip[0], ip[1], ip[2], ip[3])),
            ));
        }
        m.to_vec().unwrap()
    };
    assert_eq!(
        service_address(&answer(&[[34, 117, 59, 81]])),
        Ok(Ipv4Addr::new(34, 117, 59, 81))
    );
    assert_eq!(
        service_address(&answer(&[[34, 117, 59, 81], [198, 18, 0, 4]])),
        Err("fakeip".to_owned())
    );
    assert_eq!(service_address(&answer(&[])), Err("no address".to_owned()));
    assert_eq!(service_address(&[1, 2, 3]), Err(Message::from_vec(&[1, 2, 3]).unwrap_err().to_string()));
}
