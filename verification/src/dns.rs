//! DNS messages: what a query asks, the addresses an answer carries, and
//! the answer without records.
//!
//! The wire format is that of `hickory_proto`; what is kept of a message
//! here is what the daemon decides by.

use hickory_proto::op::MessageType::{Query as Asking, Response as Answering};
use hickory_proto::op::{Message as Wire, OpCode, Query, ResponseCode};
use hickory_proto::rr::RData::A as Address;
use hickory_proto::rr::{Name, RecordType};
use vstd::prelude::*;
use vstd::string::*;

use crate::addr::{Ipv4Addr, Subnet};
use crate::dns::Answer::Other;

verus! {

#[derive(Clone, Copy, Debug, PartialEq, Eq, Structural)]
pub enum Kind {
    Query,
    Response,
}

/// A question: the labels of its name, its type and its class.
#[derive(Debug)]
pub struct Question {
    pub labels: Vec<Vec<u8>>,
    pub qtype: u16,
    pub class: u16,
}

/// A record of an answer.
#[derive(Clone, Copy, Debug, PartialEq, Eq, Structural)]
pub enum Answer {
    A(Ipv4Addr),
    Other,
}

#[derive(Debug)]
pub struct Message {
    pub id: u16,
    pub kind: Kind,
    pub op_code: u8,
    pub recursion_desired: bool,
    pub recursion_available: bool,
    pub code: u16,
    pub questions: Vec<Question>,
    pub answers: Vec<Answer>,
}

pub const NO_ERROR: u16 = 0;

pub const SERV_FAIL: u16 = 2;

pub const NX_DOMAIN: u16 = 3;

pub const TYPE_A: u16 = 1;

pub const TYPE_AAAA: u16 = 28;

pub const TYPE_SVCB: u16 = 64;

pub const TYPE_HTTPS: u16 = 65;

pub const CLASS_IN: u16 = 1;

/// A question as a mathematical value.
#[verifier::ext_equal]
pub struct Asked {
    pub labels: Seq<Seq<u8>>,
    pub qtype: u16,
    pub class: u16,
}

/// A message as a mathematical value.
#[verifier::ext_equal]
pub struct Said {
    pub id: u16,
    pub kind: Kind,
    pub op_code: u8,
    pub recursion_desired: bool,
    pub recursion_available: bool,
    pub code: u16,
    pub questions: Seq<Asked>,
    pub answers: Seq<Answer>,
}

/// The bytes the labels take, each with the byte of its length.
pub open spec fn taken(labels: Seq<Seq<u8>>) -> nat
    decreases labels.len(),
{
    if labels.len() == 0 {
        0
    } else {
        taken(labels.drop_last()) + labels.last().len() + 1
    }
}

/// Labels that make a name: each of 1 to 63 bytes, not too many in all.
pub open spec fn nameable(labels: Seq<Seq<u8>>) -> bool {
    &&& forall|i: int| 0 <= i < labels.len() ==> 1 <= (#[trigger] labels[i]).len() <= 63
    &&& taken(labels) <= 254
}

impl Said {
    /// What the fields of a message on the wire can hold.
    pub open spec fn wf(self) -> bool {
        &&& self.op_code < 16
        &&& forall|i: int|
            0 <= i < self.questions.len() ==> nameable((#[trigger] self.questions[i]).labels)
    }
}

impl Question {
    pub open spec fn view(&self) -> Asked {
        Asked {
            labels: self.labels@.map_values(|l: Vec<u8>| l@),
            qtype: self.qtype,
            class: self.class,
        }
    }
}

impl Message {
    pub open spec fn view(&self) -> Said {
        Said {
            id: self.id,
            kind: self.kind,
            op_code: self.op_code,
            recursion_desired: self.recursion_desired,
            recursion_available: self.recursion_available,
            code: self.code,
            questions: self.questions@.map_values(|q: Question| q@),
            answers: self.answers@,
        }
    }
}

// ---------------------------------------------------------------------
// The wire.
// ---------------------------------------------------------------------

/// What bytes say as a DNS message, or the words why they are none.
pub uninterp spec fn decoded(bytes: Seq<u8>) -> Result<Said, Seq<char>>;

/// The bytes of a message without records, if it fits.
pub uninterp spec fn encoded(m: Said) -> Option<Seq<u8>>;

/// The text of a name, with its root dot.
pub uninterp spec fn ascii_name(labels: Seq<Seq<u8>>) -> Seq<char>;

/// `hickory_proto::op::Message::from_vec`. What it reads, or the text of
/// its error, is a function of the bytes; the operation code is of four
/// bits, and the names it reads have labels of 1 to 63 bytes that take
/// less than 255 bytes.
#[verifier::external_body]
pub(crate) fn decode(bytes: &[u8]) -> (r: Result<Message, String>)
    ensures
        match r {
            Ok(m) => decoded(bytes@) == Ok::<Said, Seq<char>>(m@) && m@.wf(),
            Err(e) => decoded(bytes@) == Err::<Said, Seq<char>>(e@),
        },
{
    Wire::from_vec(bytes).map_err(|e| e.to_string()).map(|m| Message {
        id: m.id,
        kind: match m.message_type { Asking => Kind::Query, Answering => Kind::Response },
        op_code: m.op_code.into(),
        recursion_desired: m.recursion_desired,
        recursion_available: m.recursion_available,
        code: m.response_code.into(),
        questions: m.queries.iter().map(|q| Question { labels: q.name.iter().map(Vec::from).collect(), qtype: q.query_type.into(), class: q.query_class.into() }).collect(),
        answers: m.answers.iter().map(|r| match r.data { Address(a) => Answer::A(Ipv4Addr { bits: a.to_bits() }), _ => Other }).collect()
    })
}

/// `hickory_proto::op::Message::to_vec`, of a message put together with
/// `Message::new`, `Name::from_labels` and `Query::query`. What it writes
/// is a function of the message. One with a question at most, whose name
/// is one, always fits; and a message that fits, with a response code of
/// four bits, is read back by `decode` as it was.
#[verifier::external_body]
pub(crate) fn encode(m: &Message) -> (r: Option<Vec<u8>>)
    requires
        m@.wf(),
        m@.answers.len() == 0,
    ensures
        match r {
            Some(b) => encoded(m@) == Some(b@),
            None => encoded(m@) is None,
        },
        m@.questions.len() <= 1 ==> r is Some,
        m@.code < 16 ==> (r matches Some(b) ==> decoded(b@) == Ok::<Said, Seq<char>>(m@)),
{
    let kind = match m.kind { Kind::Query => Asking, Kind::Response => Answering };
    let mut out = Wire::new(m.id, kind, OpCode::from_u8(m.op_code));
    out.metadata.recursion_desired = m.recursion_desired;
    out.metadata.recursion_available = m.recursion_available;
    out.metadata.response_code = m.code.into();
    for q in &m.questions {
        let name = Name::from_labels(q.labels.iter().map(|l| l.as_slice())).ok()?;
        let mut query = Query::query(name, q.qtype.into());
        query.set_query_class(q.class.into());
        out.add_query(query);
    }
    out.to_vec().ok()
}

/// `hickory_proto::rr::Name::to_ascii`, of the name with these labels: a
/// function of the labels.
#[verifier::external_body]
pub(crate) fn ascii(labels: &Vec<Vec<u8>>) -> (r: String)
    requires
        nameable(labels@.map_values(|l: Vec<u8>| l@)),
    ensures
        r@ == ascii_name(labels@.map_values(|l: Vec<u8>| l@)),
{
    Name::from_labels(labels.iter().map(|l| l.as_slice())).map(|n| n.to_ascii()).unwrap_or_default()
}

/// The words for a response code.
pub uninterp spec fn code_text(code: u16) -> Seq<char>;

/// `hickory_proto::op::ResponseCode`, from the number and as it is shown:
/// a function of the number.
#[verifier::external_body]
pub(crate) fn show_code(code: u16) -> (r: String)
    ensures
        r@ == code_text(code),
{
    let code: ResponseCode = code.into();
    code.to_string()
}

/// The name of a record type.
pub uninterp spec fn type_text(qtype: u16) -> Seq<char>;

/// `hickory_proto::rr::RecordType`, from the number and as it is shown: a
/// function of the number.
#[verifier::external_body]
pub(crate) fn show_type(qtype: u16) -> (r: String)
    ensures
        r@ == type_text(qtype),
{
    let qtype: RecordType = qtype.into();
    qtype.to_string()
}

/// The labels of a name as it is written, or the words why it is none.
pub uninterp spec fn name_labels(s: Seq<char>) -> Result<Seq<Seq<u8>>, Seq<char>>;

/// `hickory_proto::rr::Name::from_ascii`. The labels, or the text of its
/// error, are a function of the text; each label has 1 to 63 bytes and
/// they take less than 255 bytes.
#[verifier::external_body]
pub(crate) fn labels_of(s: &str) -> (r: Result<Vec<Vec<u8>>, String>)
    ensures
        match r {
            Ok(v) => name_labels(s@) == Ok::<Seq<Seq<u8>>, Seq<char>>(
                v@.map_values(|l: Vec<u8>| l@),
            ),
            Err(e) => name_labels(s@) == Err::<Seq<Seq<u8>>, Seq<char>>(e@),
        },
        r matches Ok(v) ==> nameable(v@.map_values(|l: Vec<u8>| l@)),
{
    let name = Name::from_ascii(s).map_err(|e| e.to_string())?;
    Ok(name.iter().map(Vec::from).collect())
}

// ---------------------------------------------------------------------
// Answers.
// ---------------------------------------------------------------------

/// The addresses of the A records, in order.
pub open spec fn addresses(answers: Seq<Answer>) -> Seq<Ipv4Addr>
    decreases answers.len(),
{
    if answers.len() == 0 {
        seq![]
    } else {
        match answers.last() {
            Answer::A(ip) => addresses(answers.drop_last()).push(ip),
            Answer::Other => addresses(answers.drop_last()),
        }
    }
}

/// The fake address range an upstream resolver answers with: such an answer
/// belongs to the router.
pub open spec fn fake_range() -> Subnet {
    Subnet { addr: crate::addr::octets(198, 18, 0, 0), prefix: 15 }
}

pub fn fakeip() -> (r: Subnet)
    ensures
        r == fake_range(),
        r.canonical(),
{
    let r = Subnet { addr: Ipv4Addr::new(198, 18, 0, 0), prefix: 15 };
    proof {
        assert(0xc612_0000u32 & (0xffff_ffffu32 << 17u32) == 0xc612_0000u32) by (bit_vector);
    }
    r
}

/// Some address of the answer is a fake one.
pub open spec fn faked(answers: Seq<Answer>) -> bool {
    exists|i: int|
        0 <= i < addresses(answers).len() && fake_range().has(#[trigger] addresses(answers)[i])
}

pub fn ipv4_answers(msg: &Message) -> (r: Vec<Ipv4Addr>)
    ensures
        r@ == addresses(msg@.answers),
{
    let mut r: Vec<Ipv4Addr> = Vec::new();
    let mut i: usize = 0;
    proof {
        assert(msg.answers@.take(0) =~= seq![]);
    }
    while i < msg.answers.len()
        invariant
            i <= msg.answers@.len(),
            r@ == addresses(msg.answers@.take(i as int)),
        decreases msg.answers@.len() - i,
    {
        proof {
            assert(msg.answers@.take(i + 1).drop_last() =~= msg.answers@.take(i as int));
        }
        if let Answer::A(ip) = msg.answers[i] {
            r.push(ip);
        }
        i += 1;
    }
    proof {
        assert(msg.answers@.take(i as int) =~= msg.answers@);
    }
    r
}

pub fn has_fakeip(msg: &Message) -> (r: bool)
    ensures
        r == faked(msg@.answers),
{
    let ips = ipv4_answers(msg);
    let fake = fakeip();
    let mut i: usize = 0;
    while i < ips.len()
        invariant
            i <= ips@.len(),
            ips@ == addresses(msg@.answers),
            fake == fake_range(),
            fake.wf(),
            forall|j: int| 0 <= j < i ==> !fake_range().has(#[trigger] ips@[j]),
        decreases ips@.len() - i,
    {
        if fake.contains(ips[i]) {
            proof {
                assert(fake_range().has(addresses(msg@.answers)[i as int]));
            }
            return true;
        }
        i += 1;
    }
    false
}

/// The fake range is the addresses that begin as it does, to the fifteenth
/// bit: 198.18.0.0 to 198.19.255.255.
pub proof fn lemma_fake_range(ip: Ipv4Addr)
    ensures
        fake_range().has(ip) <==> ip.octet(0) == 198 && (ip.octet(1) == 18 || ip.octet(1) == 19),
{
    let x = ip.bits;
    assert((x & (0xffff_ffffu32 << 17u32) == 0xc612_0000u32) <==> (x / 0x100_0000 == 198 && (x
        / 0x1_0000 % 256 == 18 || x / 0x1_0000 % 256 == 19))) by (bit_vector);
}

// ---------------------------------------------------------------------
// Replies.
// ---------------------------------------------------------------------

/// An answer with no records, for the question of `req`.
pub open spec fn answer(req: Said, code: u16) -> Said {
    Said {
        id: req.id,
        kind: Kind::Response,
        op_code: req.op_code,
        recursion_desired: req.recursion_desired,
        recursion_available: true,
        code,
        questions: req.questions,
        answers: seq![],
    }
}

fn copy_bytes(v: &Vec<u8>) -> (r: Vec<u8>)
    ensures
        r@ == v@,
{
    let mut r: Vec<u8> = Vec::new();
    let mut i: usize = 0;
    while i < v.len()
        invariant
            i <= v@.len(),
            r@ == v@.take(i as int),
        decreases v@.len() - i,
    {
        r.push(v[i]);
        i += 1;
        proof {
            assert(v@.take(i as int) =~= v@.take(i - 1).push(v@[i - 1]));
        }
    }
    proof {
        assert(v@.take(i as int) =~= v@);
    }
    r
}

fn copy_labels(v: &Vec<Vec<u8>>) -> (r: Vec<Vec<u8>>)
    ensures
        r@.map_values(|l: Vec<u8>| l@) == v@.map_values(|l: Vec<u8>| l@),
{
    let mut r: Vec<Vec<u8>> = Vec::new();
    let mut i: usize = 0;
    while i < v.len()
        invariant
            i <= v@.len(),
            r@.len() == i,
            forall|j: int| 0 <= j < i ==> (#[trigger] r@[j])@ == v@[j]@,
        decreases v@.len() - i,
    {
        r.push(copy_bytes(&v[i]));
        i += 1;
    }
    proof {
        assert(r@.map_values(|l: Vec<u8>| l@) =~= v@.map_values(|l: Vec<u8>| l@));
    }
    r
}

fn copy_questions(v: &Vec<Question>) -> (r: Vec<Question>)
    ensures
        r@.map_values(|q: Question| q@) == v@.map_values(|q: Question| q@),
{
    let mut r: Vec<Question> = Vec::new();
    let mut i: usize = 0;
    while i < v.len()
        invariant
            i <= v@.len(),
            r@.len() == i,
            forall|j: int| 0 <= j < i ==> (#[trigger] r@[j])@ == v@[j]@,
        decreases v@.len() - i,
    {
        r.push(
            Question {
                labels: copy_labels(&v[i].labels),
                qtype: v[i].qtype,
                class: v[i].class,
            },
        );
        i += 1;
    }
    proof {
        assert(r@.map_values(|q: Question| q@) =~= v@.map_values(|q: Question| q@));
    }
    r
}

/// An answer with no records, for the question of `req`, on the wire. A
/// request of one question is always answered, and what is answered reads
/// as it was meant.
pub fn reply(req: &Message, code: u16) -> (r: Option<Vec<u8>>)
    requires
        req@.wf(),
    ensures
        match r {
            Some(b) => encoded(answer(req@, code)) == Some(b@),
            None => encoded(answer(req@, code)) is None,
        },
        req@.questions.len() <= 1 ==> r is Some,
        code < 16 ==> (r matches Some(b) ==> decoded(b@) == Ok::<Said, Seq<char>>(
            answer(req@, code),
        )),
{
    let msg = Message {
        id: req.id,
        kind: Kind::Response,
        op_code: req.op_code,
        recursion_desired: req.recursion_desired,
        recursion_available: true,
        code,
        questions: copy_questions(&req.questions),
        answers: Vec::new(),
    };
    proof {
        assert(msg@ =~= answer(req@, code));
    }
    encode(&msg)
}

// ---------------------------------------------------------------------
// Queries.
// ---------------------------------------------------------------------

/// A query for the addresses of a name.
pub open spec fn query_for(id: u16, labels: Seq<Seq<u8>>) -> Said {
    Said {
        id,
        kind: Kind::Query,
        op_code: 0,
        recursion_desired: true,
        recursion_available: false,
        code: NO_ERROR,
        questions: seq![Asked { labels, qtype: TYPE_A, class: CLASS_IN }],
        answers: seq![],
    }
}

/// A query for the addresses of `name`, on the wire, or the words why that
/// is not a name.
pub fn query_a(id: u16, name: &str) -> (r: Result<Vec<u8>, String>)
    ensures
        match name_labels(name@) {
            Ok(labels) => r matches Ok(b) && encoded(query_for(id, labels)) == Some(b@) && decoded(
                b@,
            ) == Ok::<Said, Seq<char>>(query_for(id, labels)),
            Err(e) => r matches Err(f) && f@ == e,
        },
{
    let labels = match labels_of(name) {
        Ok(labels) => labels,
        Err(e) => {
            return Err(e);
        },
    };
    let mut questions: Vec<Question> = Vec::new();
    let ghost l = labels@.map_values(|l: Vec<u8>| l@);
    questions.push(Question { labels, qtype: TYPE_A, class: CLASS_IN });
    let msg = Message {
        id,
        kind: Kind::Query,
        op_code: 0,
        recursion_desired: true,
        recursion_available: false,
        code: NO_ERROR,
        questions,
        answers: Vec::new(),
    };
    proof {
        assert(msg@ =~= query_for(id, l));
        assert(msg@.questions[0].labels == l);
    }
    Ok(encode(&msg).unwrap())
}

// ---------------------------------------------------------------------
// Laws.
// ---------------------------------------------------------------------

/// The addresses of an answer are those of its A records, all of them, in
/// order.
pub proof fn lemma_the_addresses(answers: Seq<Answer>)
    ensures
        addresses(answers) == answers.filter(|a: Answer| a is A).map_values(|a: Answer| a->A_0),
    decreases answers.len(),
{
    reveal(Seq::filter);
    let p = |a: Answer| a is A;
    let f = |a: Answer| a->A_0;
    if answers.len() > 0 {
        lemma_the_addresses(answers.drop_last());
    }
    assert(addresses(answers) =~= answers.filter(p).map_values(f));
}

proof fn lemma_an_address_is_there(answers: Seq<Answer>, ip: Ipv4Addr)
    ensures
        addresses(answers).contains(ip) <==> answers.contains(Answer::A(ip)),
    decreases answers.len(),
{
    if answers.len() > 0 {
        let (r, x) = (answers.drop_last(), answers.last());
        lemma_an_address_is_there(r, ip);
        assert(answers =~= r.push(x));
        assert(answers[answers.len() - 1] == x);
        if r.contains(Answer::A(ip)) {
            let i = choose|i: int| 0 <= i < r.len() && r[i] == Answer::A(ip);
            assert(answers[i] == Answer::A(ip));
        }
        if answers.contains(Answer::A(ip)) && x != Answer::A(ip) {
            let i = choose|i: int| 0 <= i < answers.len() && answers[i] == Answer::A(ip);
            assert(r[i] == Answer::A(ip));
        }
        if let Answer::A(y) = x {
            let (a, b) = (addresses(r), addresses(answers));
            assert(b[a.len() as int] == y);
            if a.contains(ip) {
                let i = choose|i: int| 0 <= i < a.len() && a[i] == ip;
                assert(b[i] == ip);
            }
            if b.contains(ip) && y != ip {
                let i = choose|i: int| 0 <= i < b.len() && b[i] == ip;
                assert(a[i] == ip);
            }
        }
    }
}

/// An answer is a fake one when any address in it is between 198.18.0.0 and
/// 198.19.255.255, wherever in the answer it stands.
pub proof fn lemma_a_fake_answer(answers: Seq<Answer>)
    ensures
        faked(answers) <==> exists|ip: Ipv4Addr|
            #[trigger] answers.contains(Answer::A(ip)) && 0xc612_0000 <= ip.bits <= 0xc613_ffff,
{
    let s = addresses(answers);
    if faked(answers) {
        let i = choose|i: int| 0 <= i < s.len() && fake_range().has(#[trigger] s[i]);
        lemma_in_the_fake_range(s[i]);
        lemma_an_address_is_there(answers, s[i]);
        assert(s.contains(s[i]));
    }
    if exists|ip: Ipv4Addr|
        #[trigger] answers.contains(Answer::A(ip)) && 0xc612_0000 <= ip.bits <= 0xc613_ffff {
        let ip = choose|ip: Ipv4Addr|
            #[trigger] answers.contains(Answer::A(ip)) && 0xc612_0000 <= ip.bits <= 0xc613_ffff;
        lemma_in_the_fake_range(ip);
        lemma_an_address_is_there(answers, ip);
        let i = choose|i: int| 0 <= i < s.len() && s[i] == ip;
        assert(fake_range().has(s[i]));
    }
}

proof fn lemma_in_the_fake_range(ip: Ipv4Addr)
    ensures
        fake_range().has(ip) <==> 0xc612_0000 <= ip.bits <= 0xc613_ffff,
{
    let x = ip.bits;
    assert(fake_range().addr.bits == 0xc612_0000u32);
    assert((x & (0xffff_ffffu32 << 17u32) == 0xc612_0000u32) <==> (0xc612_0000u32 <= x && x
        <= 0xc613_ffffu32)) by (bit_vector);
}

/// An answer without records says whose it is: it has the number, the
/// question and the wish for recursion of the query, and the code given.
pub proof fn lemma_an_answer_without_records(req: Said, code: u16)
    ensures
        answer(req, code).id == req.id,
        answer(req, code).kind == Kind::Response,
        answer(req, code).op_code == req.op_code,
        answer(req, code).recursion_desired == req.recursion_desired,
        answer(req, code).recursion_available,
        answer(req, code).code == code,
        answer(req, code).questions == req.questions,
        answer(req, code).answers.len() == 0,
{
}

/// A query asks once, for the addresses of the name, and wants recursion.
pub proof fn lemma_a_query(id: u16, labels: Seq<Seq<u8>>)
    ensures
        query_for(id, labels).id == id,
        query_for(id, labels).kind == Kind::Query,
        query_for(id, labels).op_code == 0,
        query_for(id, labels).recursion_desired,
        query_for(id, labels).code == 0,
        query_for(id, labels).questions == seq![Asked { labels, qtype: 1, class: 1 }],
        query_for(id, labels).answers.len() == 0,
{
}

/// Labels make a name when each has one to 63 bytes and all of them, each
/// with the byte of its length, no more than 254.
pub proof fn lemma_which_labels_make_a_name(labels: Seq<Seq<u8>>, l: Seq<u8>)
    ensures
        taken(seq![]) == 0,
        taken(labels.push(l)) == taken(labels) + l.len() + 1,
        nameable(seq![]),
        nameable(labels.push(l)) <==> nameable(labels) && 1 <= l.len() <= 63 && taken(labels)
            + l.len() + 1 <= 254,
{
    let all = labels.push(l);
    assert(all.drop_last() =~= labels);
    if nameable(all) {
        assert forall|i: int| 0 <= i < labels.len() implies 1 <= (#[trigger] labels[i]).len()
            <= 63 by {
            assert(all[i] == labels[i]);
        }
        assert(all[labels.len() as int] == l);
    }
}

} // verus!
