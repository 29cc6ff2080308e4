//! Requests, responses and their codes, and the payload codec between them
//! and the bytes that a frame carries.

use crate::protocol::{frame_of, MessageID, Msg, Protocol, MESSAGE_ID_LEN};
use crate::wire::{
    any_number_above, any_number_between, bytes_if_present, bytes_of, copy_range, field_views,
    field_wf, fields_bytes, find_last, fits_int32, int32_from_wire, int32_to_wire,
    last_with_tag, lemma_fields_bytes_concat, lemma_fields_len_append, lemma_fields_round_trip,
    lemma_last_with_tag_append, lemma_last_with_tag_short, number_if_present, number_of,
    number_or_zero, number_unless_zero, optional_int32_of_wire, optional_int32_wire,
    parse_fields, read_fields, some_number_above, some_number_between, write_bytes_if_present,
    write_number_if_present, write_number_unless_zero, Field, FieldView,
    INT32_WIRE_NEGATIVE_MIN, INT32_WIRE_POSITIVE_MAX,
};
use vstd::prelude::*;
use vstd::std_specs::convert::FromSpecImpl;

verus! {

/// The commands that a request can name.
#[derive(Debug, Clone, Copy, PartialEq, Eq, Structural)]
pub enum Command {
    Put,
    Get,
    Remove,
    Shutdown,
    Wipeout,
    IsAlive,
    GetPID,
    GetMembershipCount,
    GetMembershipList,
}

impl Command {
    /// The opcode that stands for the command on the wire.
    pub open spec fn spec_opcode(self) -> u32 {
        match self {
            Command::Put => 0x01,
            Command::Get => 0x02,
            Command::Remove => 0x03,
            Command::Shutdown => 0x04,
            Command::Wipeout => 0x05,
            Command::IsAlive => 0x06,
            Command::GetPID => 0x07,
            Command::GetMembershipCount => 0x08,
            Command::GetMembershipList => 0x22,
        }
    }

    /// The command that an opcode stands for, if it stands for one.
    pub open spec fn spec_from_u32(n: u32) -> Option<Command> {
        if n == 0x01 {
            Some(Command::Put)
        } else if n == 0x02 {
            Some(Command::Get)
        } else if n == 0x03 {
            Some(Command::Remove)
        } else if n == 0x04 {
            Some(Command::Shutdown)
        } else if n == 0x05 {
            Some(Command::Wipeout)
        } else if n == 0x06 {
            Some(Command::IsAlive)
        } else if n == 0x07 {
            Some(Command::GetPID)
        } else if n == 0x08 {
            Some(Command::GetMembershipCount)
        } else if n == 0x22 {
            Some(Command::GetMembershipList)
        } else {
            None
        }
    }

    /// The opcode that stands for the command on the wire.
    #[verifier::when_used_as_spec(spec_opcode)]
    pub fn opcode(self) -> (r: u32)
        ensures
            r == self.spec_opcode(),
    {
        match self {
            Command::Put => 0x01,
            Command::Get => 0x02,
            Command::Remove => 0x03,
            Command::Shutdown => 0x04,
            Command::Wipeout => 0x05,
            Command::IsAlive => 0x06,
            Command::GetPID => 0x07,
            Command::GetMembershipCount => 0x08,
            Command::GetMembershipList => 0x22,
        }
    }

    /// The command that an opcode stands for; `None` for an opcode outside
    /// the set.
    #[verifier::when_used_as_spec(spec_from_u32)]
    pub fn from_u32(n: u32) -> (r: Option<Command>)
        ensures
            r == Command::spec_from_u32(n),
    {
        match n {
            0x01 => Some(Command::Put),
            0x02 => Some(Command::Get),
            0x03 => Some(Command::Remove),
            0x04 => Some(Command::Shutdown),
            0x05 => Some(Command::Wipeout),
            0x06 => Some(Command::IsAlive),
            0x07 => Some(Command::GetPID),
            0x08 => Some(Command::GetMembershipCount),
            0x22 => Some(Command::GetMembershipList),
            _ => None,
        }
    }
}

/// The codes that a response can carry.
#[derive(Debug, Clone, Copy, PartialEq, Eq, Structural)]
pub enum ErrorCode {
    Success,
    NonExistentKey,
    OutOfSpace,
    TemporarySystemOverload,
    InternalKVStoreFailure,
    UnrecognizedCommand,
    InvalidKey,
    InvalidValue,
    ProtobufError,
    InvalidChecksum,
}

impl ErrorCode {
    /// The number that stands for the code on the wire.
    pub open spec fn spec_code(self) -> u32 {
        match self {
            ErrorCode::Success => 0x00,
            ErrorCode::NonExistentKey => 0x01,
            ErrorCode::OutOfSpace => 0x02,
            ErrorCode::TemporarySystemOverload => 0x03,
            ErrorCode::InternalKVStoreFailure => 0x04,
            ErrorCode::UnrecognizedCommand => 0x05,
            ErrorCode::InvalidKey => 0x06,
            ErrorCode::InvalidValue => 0x07,
            ErrorCode::ProtobufError => 0x21,
            ErrorCode::InvalidChecksum => 0x22,
        }
    }

    /// The code that a number stands for, if it stands for one.
    pub open spec fn spec_from_u32(n: u32) -> Option<ErrorCode> {
        if n == 0x00 {
            Some(ErrorCode::Success)
        } else if n == 0x01 {
            Some(ErrorCode::NonExistentKey)
        } else if n == 0x02 {
            Some(ErrorCode::OutOfSpace)
        } else if n == 0x03 {
            Some(ErrorCode::TemporarySystemOverload)
        } else if n == 0x04 {
            Some(ErrorCode::InternalKVStoreFailure)
        } else if n == 0x05 {
            Some(ErrorCode::UnrecognizedCommand)
        } else if n == 0x06 {
            Some(ErrorCode::InvalidKey)
        } else if n == 0x07 {
            Some(ErrorCode::InvalidValue)
        } else if n == 0x21 {
            Some(ErrorCode::ProtobufError)
        } else if n == 0x22 {
            Some(ErrorCode::InvalidChecksum)
        } else {
            None
        }
    }

    /// The number that stands for the code on the wire.
    #[verifier::when_used_as_spec(spec_code)]
    pub fn code(self) -> (r: u32)
        ensures
            r == self.spec_code(),
    {
        match self {
            ErrorCode::Success => 0x00,
            ErrorCode::NonExistentKey => 0x01,
            ErrorCode::OutOfSpace => 0x02,
            ErrorCode::TemporarySystemOverload => 0x03,
            ErrorCode::InternalKVStoreFailure => 0x04,
            ErrorCode::UnrecognizedCommand => 0x05,
            ErrorCode::InvalidKey => 0x06,
            ErrorCode::InvalidValue => 0x07,
            ErrorCode::ProtobufError => 0x21,
            ErrorCode::InvalidChecksum => 0x22,
        }
    }

    /// The code that a number stands for; `None` for a number outside the
    /// set.
    #[verifier::when_used_as_spec(spec_from_u32)]
    pub fn from_u32(n: u32) -> (r: Option<ErrorCode>)
        ensures
            r == ErrorCode::spec_from_u32(n),
    {
        match n {
            0x00 => Some(ErrorCode::Success),
            0x01 => Some(ErrorCode::NonExistentKey),
            0x02 => Some(ErrorCode::OutOfSpace),
            0x03 => Some(ErrorCode::TemporarySystemOverload),
            0x04 => Some(ErrorCode::InternalKVStoreFailure),
            0x05 => Some(ErrorCode::UnrecognizedCommand),
            0x06 => Some(ErrorCode::InvalidKey),
            0x07 => Some(ErrorCode::InvalidValue),
            0x21 => Some(ErrorCode::ProtobufError),
            0x22 => Some(ErrorCode::InvalidChecksum),
            _ => None,
        }
    }
}

/// Opcodes and commands stand for each other one to one, and so do numbers
/// and codes.
pub proof fn lemma_codes_round_trip(command: Command, code: ErrorCode, n: u32)
    ensures
        Command::spec_from_u32(command.spec_opcode()) == Some(command),
        Command::spec_from_u32(n) is Some ==> Command::spec_from_u32(n)->0.spec_opcode() == n,
        ErrorCode::spec_from_u32(code.spec_code()) == Some(code),
        ErrorCode::spec_from_u32(n) is Some ==> ErrorCode::spec_from_u32(n)->0.spec_code() == n,
{
}

/// Why a datagram or its payload could not be read.
#[derive(Debug, Clone, Copy, PartialEq, Eq, Structural)]
pub enum ApplicationError {
    /// The payload names a command that does not exist; the opcode is kept.
    UnrecognizedCommand(u32),
    /// The payload is not a well-formed request.
    ProtobufError,
    /// The frame's checksum does not belong to its identifier and payload.
    InvalidChecksum,
    /// The datagram is not a well-formed frame.
    InvalidFraming,
}

/// The code under which an error is reported to the client. A frame that
/// cannot be read is never answered; its error shares the code of a payload
/// that cannot be read.
pub open spec fn error_code_of(err: ApplicationError) -> ErrorCode {
    match err {
        ApplicationError::UnrecognizedCommand(_) => ErrorCode::UnrecognizedCommand,
        ApplicationError::ProtobufError => ErrorCode::ProtobufError,
        ApplicationError::InvalidChecksum => ErrorCode::InvalidChecksum,
        ApplicationError::InvalidFraming => ErrorCode::ProtobufError,
    }
}

impl From<ApplicationError> for ErrorCode {
    fn from(err: ApplicationError) -> (r: ErrorCode) {
        match err {
            ApplicationError::UnrecognizedCommand(_) => ErrorCode::UnrecognizedCommand,
            ApplicationError::ProtobufError => ErrorCode::ProtobufError,
            ApplicationError::InvalidChecksum => ErrorCode::InvalidChecksum,
            ApplicationError::InvalidFraming => ErrorCode::ProtobufError,
        }
    }
}

impl FromSpecImpl<ApplicationError> for ErrorCode {
    open spec fn obeys_from_spec() -> bool {
        true
    }

    open spec fn from_spec(err: ApplicationError) -> ErrorCode {
        error_code_of(err)
    }
}

/// The view of an optional byte string.
pub open spec fn optional_bytes_view(data: Option<Vec<u8>>) -> Option<Seq<u8>> {
    match data {
        Some(d) => Some(d@),
        None => None,
    }
}

/// The longest byte string that a request or a response may carry in one
/// field and still be written.
pub const MAX_FIELD_LEN: usize = 0x7fff_ffff;

/// Whether an optional byte string is short enough to be written.
pub open spec fn optional_bytes_fit(data: Option<Seq<u8>>) -> bool {
    data is Some ==> data->0.len() <= MAX_FIELD_LEN
}

/// Copies an optional byte string.
pub fn copy_optional_bytes(data: &Option<Vec<u8>>) -> (r: Option<Vec<u8>>)
    ensures
        optional_bytes_view(r) == optional_bytes_view(*data),
{
    match data {
        Some(d) => Some(copy_range(d.as_slice(), 0, d.len())),
        None => None,
    }
}

/// A request as the payload of a frame carries it.
#[derive(Debug)]
pub struct Request {
    pub command: Command,
    pub key: Option<Vec<u8>>,
    pub value: Option<Vec<u8>>,
    pub version: Option<i32>,
}

/// The mathematical value of a request.
pub ghost struct RequestView {
    pub command: Command,
    pub key: Option<Seq<u8>>,
    pub value: Option<Seq<u8>>,
    pub version: Option<i32>,
}

impl View for Request {
    type V = RequestView;

    open spec fn view(&self) -> RequestView {
        RequestView {
            command: self.command,
            key: optional_bytes_view(self.key),
            value: optional_bytes_view(self.value),
            version: self.version,
        }
    }
}

/// A response as the payload of a frame carries it.
#[derive(Debug)]
pub struct Response {
    pub err_code: u32,
    pub value: Option<Vec<u8>>,
    pub pid: Option<i32>,
    pub version: Option<i32>,
    pub overload_wait_time: Option<i32>,
    pub membership_count: Option<i32>,
}

/// The mathematical value of a response.
pub ghost struct ResponseView {
    pub err_code: u32,
    pub value: Option<Seq<u8>>,
    pub pid: Option<i32>,
    pub version: Option<i32>,
    pub overload_wait_time: Option<i32>,
    pub membership_count: Option<i32>,
}

impl View for Response {
    type V = ResponseView;

    open spec fn view(&self) -> ResponseView {
        ResponseView {
            err_code: self.err_code,
            value: optional_bytes_view(self.value),
            pid: self.pid,
            version: self.version,
            overload_wait_time: self.overload_wait_time,
            membership_count: self.membership_count,
        }
    }
}

/// The response that carries a code and nothing else.
pub open spec fn bare_response(err_code: u32) -> ResponseView {
    ResponseView {
        err_code,
        value: None,
        pid: None,
        version: None,
        overload_wait_time: None,
        membership_count: None,
    }
}

impl Default for Response {
    fn default() -> (r: Response)
        ensures
            r@ == bare_response(0),
    {
        Response {
            err_code: 0,
            value: None,
            pid: None,
            version: None,
            overload_wait_time: None,
            membership_count: None,
        }
    }
}

impl Clone for Response {
    fn clone(&self) -> (r: Response)
        ensures
            r@ == self@,
    {
        Response {
            err_code: self.err_code,
            value: copy_optional_bytes(&self.value),
            pid: self.pid,
            version: self.version,
            overload_wait_time: self.overload_wait_time,
            membership_count: self.membership_count,
        }
    }
}

impl Response {
    /// The response that reports success and carries nothing else.
    #[must_use]
    pub fn success() -> (r: Response)
        ensures
            r@ == bare_response(ErrorCode::Success.spec_code()),
    {
        Response {
            err_code: 0,
            value: None,
            pid: None,
            version: None,
            overload_wait_time: None,
            membership_count: None,
        }
    }

    /// The response that reports `err_code` and carries nothing else.
    #[must_use]
    pub fn error(err_code: ErrorCode) -> (r: Response)
        ensures
            r@ == bare_response(err_code.spec_code()),
    {
        Response {
            err_code: err_code.code(),
            value: None,
            pid: None,
            version: None,
            overload_wait_time: None,
            membership_count: None,
        }
    }
}

/// The tag of a request's command: field 1, an integer.
pub const TAG_COMMAND: u32 = 8;

/// The tag of a request's key: field 2, a byte string.
pub const TAG_KEY: u32 = 18;

/// The tag of a request's value: field 3, a byte string.
pub const TAG_VALUE: u32 = 26;

/// The tag of a request's version: field 4, an integer.
pub const TAG_VERSION: u32 = 32;

/// The tag of a response's code: field 1, an integer.
pub const TAG_ERR_CODE: u32 = 8;

/// The tag of a response's value: field 2, a byte string.
pub const TAG_RESPONSE_VALUE: u32 = 18;

/// The tag of a response's process identifier: field 3, an integer.
pub const TAG_PID: u32 = 24;

/// The tag of a response's version: field 4, an integer.
pub const TAG_RESPONSE_VERSION: u32 = 32;

/// The tag of a response's suggested waiting time: field 5, an integer.
pub const TAG_OVERLOAD_WAIT_TIME: u32 = 40;

/// The tag of a response's membership count: field 6, an integer.
pub const TAG_MEMBERSHIP_COUNT: u32 = 48;

/// The fields that a request puts on the wire, in the order of their
/// numbers. An opcode of 0 and every absent field are left out.
pub open spec fn request_fields(opcode: u32, r: RequestView) -> Seq<FieldView> {
    number_unless_zero(TAG_COMMAND, opcode as u64) + bytes_if_present(TAG_KEY, r.key)
        + bytes_if_present(TAG_VALUE, r.value) + number_if_present(
        TAG_VERSION,
        optional_int32_wire(r.version),
    )
}

/// The bytes of a request on the wire.
pub open spec fn request_bytes(r: RequestView) -> Seq<u8> {
    fields_bytes(request_fields(r.command.spec_opcode(), r))
}

/// Whether the numbers of a request's fields are in range wherever they
/// occur: every command within 32 bits, every version a signed 32-bit
/// integer.
pub open spec fn request_numbers_fit(fields: Seq<FieldView>) -> bool {
    &&& !some_number_above(fields, TAG_COMMAND, u32::MAX as u64)
    &&& !some_number_between(
        fields,
        TAG_VERSION,
        INT32_WIRE_POSITIVE_MAX,
        INT32_WIRE_NEGATIVE_MIN,
    )
}

/// The opcode that a run of fields holds: that of the last command field,
/// or 0.
pub open spec fn opcode_of_fields(fields: Seq<FieldView>) -> u32 {
    number_or_zero(last_with_tag(fields, TAG_COMMAND)) as u32
}

/// The request that a run of fields stands for under a command: of each
/// known field the last occurrence counts, and fields with other tags are
/// passed over.
pub open spec fn request_of_fields(command: Command, fields: Seq<FieldView>) -> RequestView {
    RequestView {
        command,
        key: bytes_of(last_with_tag(fields, TAG_KEY)),
        value: bytes_of(last_with_tag(fields, TAG_VALUE)),
        version: optional_int32_of_wire(number_of(last_with_tag(fields, TAG_VERSION))),
    }
}

/// What decoding a payload as a request yields. A payload that is not a
/// well-formed message, or holds a number out of range, is malformed; an
/// opcode outside the set of commands is reported with the opcode.
pub open spec fn decode_request(payload: Seq<u8>) -> Result<RequestView, ApplicationError> {
    match parse_fields(payload) {
        None => Err(ApplicationError::ProtobufError),
        Some(fields) => if !request_numbers_fit(fields) {
            Err(ApplicationError::ProtobufError)
        } else {
            let opcode = opcode_of_fields(fields);
            match Command::spec_from_u32(opcode) {
                None => Err(ApplicationError::UnrecognizedCommand(opcode)),
                Some(command) => Ok(request_of_fields(command, fields)),
            }
        },
    }
}

/// The fields that a response puts on the wire, in the order of their
/// numbers. A code of 0 and every absent field are left out.
pub open spec fn response_fields(r: ResponseView) -> Seq<FieldView> {
    number_unless_zero(TAG_ERR_CODE, r.err_code as u64) + bytes_if_present(
        TAG_RESPONSE_VALUE,
        r.value,
    ) + number_if_present(TAG_PID, optional_int32_wire(r.pid)) + number_if_present(
        TAG_RESPONSE_VERSION,
        optional_int32_wire(r.version),
    ) + number_if_present(TAG_OVERLOAD_WAIT_TIME, optional_int32_wire(r.overload_wait_time))
        + number_if_present(TAG_MEMBERSHIP_COUNT, optional_int32_wire(r.membership_count))
}

/// The bytes of a response on the wire.
pub open spec fn response_bytes(r: ResponseView) -> Seq<u8> {
    fields_bytes(response_fields(r))
}

/// Whether the numbers of a response's fields are in range wherever they
/// occur.
pub open spec fn response_numbers_fit(fields: Seq<FieldView>) -> bool {
    &&& !some_number_above(fields, TAG_ERR_CODE, u32::MAX as u64)
    &&& !some_number_between(fields, TAG_PID, INT32_WIRE_POSITIVE_MAX, INT32_WIRE_NEGATIVE_MIN)
    &&& !some_number_between(
        fields,
        TAG_RESPONSE_VERSION,
        INT32_WIRE_POSITIVE_MAX,
        INT32_WIRE_NEGATIVE_MIN,
    )
    &&& !some_number_between(
        fields,
        TAG_OVERLOAD_WAIT_TIME,
        INT32_WIRE_POSITIVE_MAX,
        INT32_WIRE_NEGATIVE_MIN,
    )
    &&& !some_number_between(
        fields,
        TAG_MEMBERSHIP_COUNT,
        INT32_WIRE_POSITIVE_MAX,
        INT32_WIRE_NEGATIVE_MIN,
    )
}

/// The response that a run of fields stands for.
pub open spec fn response_of_fields(fields: Seq<FieldView>) -> ResponseView {
    ResponseView {
        err_code: number_or_zero(last_with_tag(fields, TAG_ERR_CODE)) as u32,
        value: bytes_of(last_with_tag(fields, TAG_RESPONSE_VALUE)),
        pid: optional_int32_of_wire(number_of(last_with_tag(fields, TAG_PID))),
        version: optional_int32_of_wire(number_of(last_with_tag(fields, TAG_RESPONSE_VERSION))),
        overload_wait_time: optional_int32_of_wire(
            number_of(last_with_tag(fields, TAG_OVERLOAD_WAIT_TIME)),
        ),
        membership_count: optional_int32_of_wire(
            number_of(last_with_tag(fields, TAG_MEMBERSHIP_COUNT)),
        ),
    }
}

/// What decoding a payload as a response yields.
pub open spec fn decode_response(payload: Seq<u8>) -> Result<ResponseView, ApplicationError> {
    match parse_fields(payload) {
        None => Err(ApplicationError::ProtobufError),
        Some(fields) => if !response_numbers_fit(fields) {
            Err(ApplicationError::ProtobufError)
        } else {
            Ok(response_of_fields(fields))
        },
    }
}

/// The bytes of the last field with `tag`, if there is one.
fn last_bytes(fields: &Vec<Field>, tag: u32) -> (r: Option<Vec<u8>>)
    ensures
        optional_bytes_view(r) == bytes_of(last_with_tag(field_views(fields@), tag)),
{
    match find_last(fields, tag) {
        Some(i) => {
            let data = copy_range(fields[i].bytes.as_slice(), 0, fields[i].bytes.len());
            assert(data@ =~= fields[i as int]@.bytes);
            Some(data)
        },
        None => None,
    }
}

/// The signed 32-bit integer of the last field with `tag`, if there is one.
fn last_int32(fields: &Vec<Field>, tag: u32) -> (r: Option<i32>)
    requires
        !some_number_between(
            field_views(fields@),
            tag,
            INT32_WIRE_POSITIVE_MAX,
            INT32_WIRE_NEGATIVE_MIN,
        ),
    ensures
        r == optional_int32_of_wire(number_of(last_with_tag(field_views(fields@), tag))),
{
    match find_last(fields, tag) {
        Some(i) => {
            proof {
                let all = field_views(fields@);
                lemma_last_with_tag_carries(all, tag);
                assert(all[i as int] == fields[i as int]@);
                if !fits_int32(fields[i as int].number) {
                    assert(all[i as int].tag == tag && INT32_WIRE_POSITIVE_MAX
                        < all[i as int].number < INT32_WIRE_NEGATIVE_MIN);
                }
            }
            Some(int32_from_wire(fields[i].number))
        },
        None => None,
    }
}

/// The 32-bit number of the last field with `tag`, or 0.
fn last_uint32(fields: &Vec<Field>, tag: u32) -> (r: u32)
    requires
        !some_number_above(field_views(fields@), tag, u32::MAX as u64),
    ensures
        r == number_or_zero(last_with_tag(field_views(fields@), tag)) as u32,
        r == number_or_zero(last_with_tag(field_views(fields@), tag)),
{
    match find_last(fields, tag) {
        Some(i) => {
            proof {
                let all = field_views(fields@);
                lemma_last_with_tag_carries(all, tag);
                assert(all[i as int] == fields[i as int]@);
                if fields[i as int].number > u32::MAX {
                    assert(all[i as int].tag == tag && all[i as int].number > u32::MAX as u64);
                }
            }
            fields[i].number as u32
        },
        None => 0,
    }
}

/// The last field with a tag carries that tag.
pub proof fn lemma_last_with_tag_carries(fields: Seq<FieldView>, tag: u32)
    ensures
        last_with_tag(fields, tag) is Some ==> last_with_tag(fields, tag)->0.tag == tag,
    decreases fields.len(),
{
    if fields.len() > 0 && fields.last().tag != tag {
        lemma_last_with_tag_carries(fields.drop_last(), tag);
    }
}

impl Request {
    /// Whether the request can be written: key and value are short enough.
    pub open spec fn encodable(&self) -> bool {
        optional_bytes_fit(self@.key) && optional_bytes_fit(self@.value)
    }

    /// The bytes of the request on the wire.
    pub fn to_bytes(&self) -> (r: Vec<u8>)
        requires
            self.encodable(),
        ensures
            r@ == request_bytes(self@),
    {
        let mut out: Vec<u8> = Vec::new();
        write_number_unless_zero(&mut out, TAG_COMMAND, self.command.opcode() as u64);
        write_bytes_if_present(&mut out, TAG_KEY, &self.key);
        write_bytes_if_present(&mut out, TAG_VALUE, &self.value);
        let version: Option<u64> = match self.version {
            Some(v) => Some(int32_to_wire(v)),
            None => None,
        };
        write_number_if_present(&mut out, TAG_VERSION, version);
        proof {
            let a = number_unless_zero(TAG_COMMAND, self.command.spec_opcode() as u64);
            let b = bytes_if_present(TAG_KEY, self@.key);
            let c = bytes_if_present(TAG_VALUE, self@.value);
            let d = number_if_present(TAG_VERSION, optional_int32_wire(self@.version));
            lemma_fields_bytes_concat(a, b);
            lemma_fields_bytes_concat(a + b, c);
            lemma_fields_bytes_concat(a + b + c, d);
            assert(Seq::<u8>::empty() + fields_bytes(a) == fields_bytes(a));
        }
        out
    }

    /// Reads a request from the payload of a frame.
    pub fn from_bytes(payload: &[u8]) -> (r: Result<Request, ApplicationError>)
        ensures
            match decode_request(payload@) {
                Ok(v) => r is Ok && r->Ok_0@ == v,
                Err(e) => r == Err::<Request, ApplicationError>(e),
            },
    {
        let fields = match read_fields(payload) {
            Some(fields) => fields,
            None => { return Err(ApplicationError::ProtobufError); },
        };
        if any_number_above(&fields, TAG_COMMAND, u32::MAX as u64) || any_number_between(
            &fields,
            TAG_VERSION,
            INT32_WIRE_POSITIVE_MAX,
            INT32_WIRE_NEGATIVE_MIN,
        ) {
            return Err(ApplicationError::ProtobufError);
        }
        let opcode: u32 = last_uint32(&fields, TAG_COMMAND);
        let command = match Command::from_u32(opcode) {
            Some(command) => command,
            None => { return Err(ApplicationError::UnrecognizedCommand(opcode)); },
        };
        Ok(
            Request {
                command,
                key: last_bytes(&fields, TAG_KEY),
                value: last_bytes(&fields, TAG_VALUE),
                version: last_int32(&fields, TAG_VERSION),
            },
        )
    }
}

impl Response {
    /// Whether the response can be written: its value is short enough.
    pub open spec fn encodable(&self) -> bool {
        optional_bytes_fit(self@.value)
    }

    /// The bytes of the response on the wire.
    pub fn to_bytes(&self) -> (r: Vec<u8>)
        requires
            self.encodable(),
        ensures
            r@ == response_bytes(self@),
    {
        let mut out: Vec<u8> = Vec::new();
        write_number_unless_zero(&mut out, TAG_ERR_CODE, self.err_code as u64);
        write_bytes_if_present(&mut out, TAG_RESPONSE_VALUE, &self.value);
        write_number_if_present(&mut out, TAG_PID, optional_int32_to_wire(self.pid));
        write_number_if_present(&mut out, TAG_RESPONSE_VERSION, optional_int32_to_wire(self.version));
        write_number_if_present(
            &mut out,
            TAG_OVERLOAD_WAIT_TIME,
            optional_int32_to_wire(self.overload_wait_time),
        );
        write_number_if_present(
            &mut out,
            TAG_MEMBERSHIP_COUNT,
            optional_int32_to_wire(self.membership_count),
        );
        proof {
            let a = number_unless_zero(TAG_ERR_CODE, self@.err_code as u64);
            let b = bytes_if_present(TAG_RESPONSE_VALUE, self@.value);
            let c = number_if_present(TAG_PID, optional_int32_wire(self@.pid));
            let d = number_if_present(TAG_RESPONSE_VERSION, optional_int32_wire(self@.version));
            let e = number_if_present(
                TAG_OVERLOAD_WAIT_TIME,
                optional_int32_wire(self@.overload_wait_time),
            );
            let f = number_if_present(
                TAG_MEMBERSHIP_COUNT,
                optional_int32_wire(self@.membership_count),
            );
            lemma_fields_bytes_concat(a, b);
            lemma_fields_bytes_concat(a + b, c);
            lemma_fields_bytes_concat(a + b + c, d);
            lemma_fields_bytes_concat(a + b + c + d, e);
            lemma_fields_bytes_concat(a + b + c + d + e, f);
            assert(Seq::<u8>::empty() + fields_bytes(a) == fields_bytes(a));
        }
        out
    }

    /// Reads a response from the payload of a frame.
    pub fn from_bytes(payload: &[u8]) -> (r: Result<Response, ApplicationError>)
        ensures
            match decode_response(payload@) {
                Ok(v) => r is Ok && r->Ok_0@ == v,
                Err(e) => r == Err::<Response, ApplicationError>(e),
            },
    {
        let fields = match read_fields(payload) {
            Some(fields) => fields,
            None => { return Err(ApplicationError::ProtobufError); },
        };
        if any_number_above(&fields, TAG_ERR_CODE, u32::MAX as u64) || any_number_between(
            &fields,
            TAG_PID,
            INT32_WIRE_POSITIVE_MAX,
            INT32_WIRE_NEGATIVE_MIN,
        ) || any_number_between(
            &fields,
            TAG_RESPONSE_VERSION,
            INT32_WIRE_POSITIVE_MAX,
            INT32_WIRE_NEGATIVE_MIN,
        ) || any_number_between(
            &fields,
            TAG_OVERLOAD_WAIT_TIME,
            INT32_WIRE_POSITIVE_MAX,
            INT32_WIRE_NEGATIVE_MIN,
        ) || any_number_between(
            &fields,
            TAG_MEMBERSHIP_COUNT,
            INT32_WIRE_POSITIVE_MAX,
            INT32_WIRE_NEGATIVE_MIN,
        ) {
            return Err(ApplicationError::ProtobufError);
        }
        Ok(
            Response {
                err_code: last_uint32(&fields, TAG_ERR_CODE),
                value: last_bytes(&fields, TAG_RESPONSE_VALUE),
                pid: last_int32(&fields, TAG_PID),
                version: last_int32(&fields, TAG_RESPONSE_VERSION),
                overload_wait_time: last_int32(&fields, TAG_OVERLOAD_WAIT_TIME),
                membership_count: last_int32(&fields, TAG_MEMBERSHIP_COUNT),
            },
        )
    }
}

/// The number on the wire of an optional signed 32-bit integer.
fn optional_int32_to_wire(v: Option<i32>) -> (r: Option<u64>)
    ensures
        r == optional_int32_wire(v),
{
    match v {
        Some(x) => Some(int32_to_wire(x)),
        None => None,
    }
}

/// A signed 32-bit integer is read back from the number that stands for it,
/// and that number is in range.
pub proof fn lemma_int32_wire_round_trip(v: i32)
    ensures
        fits_int32(optional_int32_wire(Some(v))->0),
        optional_int32_of_wire(optional_int32_wire(Some(v))) == Some(v),
{
}

/// Payload round trip for requests: decoding the bytes of a request whose
/// key and value fit their length prefixes gives the request back.
pub proof fn lemma_request_round_trip(r: RequestView)
    requires
        r.key is Some ==> r.key->0.len() <= u32::MAX,
        r.value is Some ==> r.value->0.len() <= u32::MAX,
    ensures
        decode_request(request_bytes(r)) == Ok::<RequestView, ApplicationError>(r),
{
    let opcode = r.command.spec_opcode();
    let a = number_unless_zero(TAG_COMMAND, opcode as u64);
    let b = bytes_if_present(TAG_KEY, r.key);
    let c = bytes_if_present(TAG_VALUE, r.value);
    let d = number_if_present(TAG_VERSION, optional_int32_wire(r.version));
    let fields = request_fields(opcode, r);
    assert(fields == a + b + c + d);
    if r.version is Some {
        lemma_int32_wire_round_trip(r.version->0);
    }
    assert forall|i: int| 0 <= i < fields.len() implies field_wf(#[trigger] fields[i]) by {
        if i < a.len() {
            assert(fields[i] == a[i]);
        } else if i < a.len() + b.len() {
            assert(fields[i] == b[i - a.len()]);
        } else if i < a.len() + b.len() + c.len() {
            assert(fields[i] == c[i - a.len() - b.len()]);
        } else {
            assert(fields[i] == d[i - a.len() - b.len() - c.len()]);
        }
    }
    lemma_fields_round_trip(fields);
    assert(request_numbers_fit(fields)) by {
        assert forall|i: int| 0 <= i < fields.len() implies (fields[i].tag == TAG_COMMAND
            ==> #[trigger] fields[i].number <= u32::MAX) && (fields[i].tag == TAG_VERSION
            ==> fits_int32(fields[i].number)) by {
            if i < a.len() {
                assert(fields[i] == a[i]);
            } else if i < a.len() + b.len() {
                assert(fields[i] == b[i - a.len()]);
            } else if i < a.len() + b.len() + c.len() {
                assert(fields[i] == c[i - a.len() - b.len()]);
            } else {
                assert(fields[i] == d[i - a.len() - b.len() - c.len()]);
            }
        }
    }
    lemma_last_with_tag_short(a);
    lemma_last_with_tag_append(a, b);
    lemma_last_with_tag_append(a + b, c);
    lemma_last_with_tag_append(a + b + c, d);
    assert(opcode_of_fields(fields) == opcode);
    lemma_codes_round_trip(r.command, ErrorCode::Success, 0);
    let back = request_of_fields(r.command, fields);
    assert(back.key == r.key);
    assert(back.value == r.value);
    assert(back.version == r.version);
}

/// Payload round trip for responses: decoding the bytes of a response whose
/// value fits its length prefix gives the response back.
pub proof fn lemma_response_round_trip(r: ResponseView)
    requires
        r.value is Some ==> r.value->0.len() <= u32::MAX,
    ensures
        decode_response(response_bytes(r)) == Ok::<ResponseView, ApplicationError>(r),
{
    let a = number_unless_zero(TAG_ERR_CODE, r.err_code as u64);
    let b = bytes_if_present(TAG_RESPONSE_VALUE, r.value);
    let c = number_if_present(TAG_PID, optional_int32_wire(r.pid));
    let d = number_if_present(TAG_RESPONSE_VERSION, optional_int32_wire(r.version));
    let e = number_if_present(TAG_OVERLOAD_WAIT_TIME, optional_int32_wire(r.overload_wait_time));
    let f = number_if_present(TAG_MEMBERSHIP_COUNT, optional_int32_wire(r.membership_count));
    let fields = response_fields(r);
    assert(fields == a + b + c + d + e + f);
    if r.pid is Some {
        lemma_int32_wire_round_trip(r.pid->0);
    }
    if r.version is Some {
        lemma_int32_wire_round_trip(r.version->0);
    }
    if r.overload_wait_time is Some {
        lemma_int32_wire_round_trip(r.overload_wait_time->0);
    }
    if r.membership_count is Some {
        lemma_int32_wire_round_trip(r.membership_count->0);
    }
    let la = a.len();
    let lb = la + b.len();
    let lc = lb + c.len();
    let ld = lc + d.len();
    let le = ld + e.len();
    assert forall|i: int| 0 <= i < fields.len() implies field_wf(#[trigger] fields[i]) && (
    fields[i].tag == TAG_ERR_CODE ==> fields[i].number <= u32::MAX) && (fields[i].tag
        != TAG_ERR_CODE && fields[i].tag != TAG_RESPONSE_VALUE ==> fits_int32(fields[i].number)) by {
        if i < la {
            assert(fields[i] == a[i]);
        } else if i < lb {
            assert(fields[i] == b[i - la]);
        } else if i < lc {
            assert(fields[i] == c[i - lb]);
        } else if i < ld {
            assert(fields[i] == d[i - lc]);
        } else if i < le {
            assert(fields[i] == e[i - ld]);
        } else {
            assert(fields[i] == f[i - le]);
        }
    }
    lemma_fields_round_trip(fields);
    assert(response_numbers_fit(fields));
    lemma_last_with_tag_short(a);
    lemma_last_with_tag_append(a, b);
    lemma_last_with_tag_append(a + b, c);
    lemma_last_with_tag_append(a + b + c, d);
    lemma_last_with_tag_append(a + b + c + d, e);
    lemma_last_with_tag_append(a + b + c + d + e, f);
    let back = response_of_fields(fields);
    assert(back.err_code == r.err_code);
    assert(back.value == r.value);
    assert(back.pid == r.pid);
    assert(back.version == r.version);
    assert(back.overload_wait_time == r.overload_wait_time);
    assert(back.membership_count == r.membership_count);
}

/// The bytes of a response are at most ninety more than those of its value.
pub proof fn lemma_response_len(r: ResponseView)
    requires
        optional_bytes_fit(r.value),
    ensures
        response_bytes(r).len() <= 90 + if r.value is Some {
            r.value->0.len()
        } else {
            0
        },
{
    let a = number_unless_zero(TAG_ERR_CODE, r.err_code as u64);
    let b = bytes_if_present(TAG_RESPONSE_VALUE, r.value);
    let c = number_if_present(TAG_PID, optional_int32_wire(r.pid));
    let d = number_if_present(TAG_RESPONSE_VERSION, optional_int32_wire(r.version));
    let e = number_if_present(TAG_OVERLOAD_WAIT_TIME, optional_int32_wire(r.overload_wait_time));
    let f = number_if_present(TAG_MEMBERSHIP_COUNT, optional_int32_wire(r.membership_count));
    let none = Seq::<FieldView>::empty();
    assert(none + a == a);
    lemma_fields_len_append(none, a);
    lemma_fields_len_append(a, b);
    lemma_fields_len_append(a + b, c);
    lemma_fields_len_append(a + b + c, d);
    lemma_fields_len_append(a + b + c + d, e);
    lemma_fields_len_append(a + b + c + d + e, f);
}

/// Wrapping a value into a frame.
pub trait Serialize: Sized {
    /// Whether the value can be written into a frame.
    spec fn fits_frame(&self) -> bool;

    /// The frame that carries the value under the given identifier.
    fn to_msg(self, message_id: MessageID) -> (r: Msg)
        requires
            self.fits_frame(),
        ensures
            r.encodable(),
    ;
}

impl Serialize for Response {
    open spec fn fits_frame(&self) -> bool {
        self.encodable()
    }

    fn to_msg(self, message_id: MessageID) -> (r: Msg)
        ensures
            r@ == frame_of(message_id@, response_bytes(self@)),
    {
        proof {
            lemma_response_len(self@);
        }
        let payload = self.to_bytes();
        Msg::from_request(message_id, payload)
    }
}

/// Taking a frame apart.
pub trait Deserialize {
    /// Whether the frame's identifier has the length of one.
    spec fn has_message_id(&self) -> bool;

    /// The request that the frame's payload holds.
    fn payload(&self) -> (r: Result<Request, ApplicationError>);

    /// The frame's identifier.
    fn message_id(&self) -> (r: MessageID)
        requires
            self.has_message_id(),
    ;
}

impl Deserialize for Msg {
    open spec fn has_message_id(&self) -> bool {
        self.message_id@.len() == MESSAGE_ID_LEN
    }

    fn payload(&self) -> (r: Result<Request, ApplicationError>)
        ensures
            match decode_request(self.payload@) {
                Ok(v) => r is Ok && r->Ok_0@ == v,
                Err(e) => r == Err::<Request, ApplicationError>(e),
            },
    {
        Request::from_bytes(self.payload.as_slice())
    }

    fn message_id(&self) -> (r: MessageID)
        ensures
            r@ == self.message_id@,
    {
        let mut id: MessageID = [0u8; 16];
        let mut i: usize = 0;
        while i < MESSAGE_ID_LEN
            invariant
                i <= MESSAGE_ID_LEN,
                self.message_id@.len() == MESSAGE_ID_LEN,
                forall|j: int| 0 <= j < i ==> id@[j] == self.message_id@[j],
            decreases MESSAGE_ID_LEN - i,
        {
            id[i] = self.message_id[i];
            i += 1;
        }
        assert(id@ =~= self.message_id@);
        id
    }
}

/// The `n` low bytes of a number, most significant first.
pub open spec fn be_bytes(v: nat, n: nat) -> Seq<u8>
    decreases n,
{
    if n == 0 {
        Seq::empty()
    } else {
        be_bytes(v / 256, (n - 1) as nat).push((v % 256) as u8)
    }
}

/// The identifier that a client makes of its address, its port, two bytes
/// of its choice and a time: the four bytes of the address, the port and the
/// time each most significant byte first, the chosen bytes between them.
pub open spec fn message_id_parts(ip: Seq<u8>, port: u16, random: Seq<u8>, nanos: u64) -> Seq<u8> {
    ip + be_bytes(port as nat, 2) + random + be_bytes(nanos as nat, 8)
}

/// Makes a message identifier of the first four bytes of the client's
/// address, its port, two random bytes and the time in nanoseconds.
#[must_use]
pub fn message_id_from_parts(ip: [u8; 4], port: u16, random: [u8; 2], nanos: u64) -> (r: MessageID)
    ensures
        r@ == message_id_parts(ip@, port, random@, nanos),
{
    let mut id: MessageID = [0u8; 16];
    id[0] = ip[0];
    id[1] = ip[1];
    id[2] = ip[2];
    id[3] = ip[3];
    id[4] = (port / 256) as u8;
    id[5] = (port % 256) as u8;
    id[6] = random[0];
    id[7] = random[1];
    id[8] = (nanos / 0x100_0000_0000_0000) as u8;
    id[9] = ((nanos / 0x1_0000_0000_0000) % 256) as u8;
    id[10] = ((nanos / 0x100_0000_0000) % 256) as u8;
    id[11] = ((nanos / 0x1_0000_0000) % 256) as u8;
    id[12] = ((nanos / 0x100_0000) % 256) as u8;
    id[13] = ((nanos / 0x1_0000) % 256) as u8;
    id[14] = ((nanos / 0x100) % 256) as u8;
    id[15] = (nanos % 256) as u8;
    proof {
        reveal_with_fuel(be_bytes, 9);
        let n = nanos as nat;
        assert(n / 256 / 256 == n / 0x1_0000);
        assert(n / 256 / 256 / 256 == n / 0x100_0000);
        assert(n / 256 / 256 / 256 / 256 == n / 0x1_0000_0000);
        assert(n / 256 / 256 / 256 / 256 / 256 == n / 0x100_0000_0000);
        assert(n / 256 / 256 / 256 / 256 / 256 / 256 == n / 0x1_0000_0000_0000);
        assert(n / 256 / 256 / 256 / 256 / 256 / 256 / 256 == n / 0x100_0000_0000_0000);
        assert(id@ =~= message_id_parts(ip@, port, random@, nanos));
    }
    id
}

} // verus!
