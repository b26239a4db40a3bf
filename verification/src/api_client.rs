//! The command-line helper for the local API: from its arguments to the
//! request it sends.
use crate::api::{bare_request, opt_view, ApiRequest, ApiRequestView};
use crate::external::{base64_decode, base64_decoding, base64_encode, base64_encoding};
use crate::text::{lemma_utf8_bytes, str_eq, utf8_bytes};
use vstd::prelude::*;

verus! {

#[derive(Debug)]
pub enum ClientError {
    MissingArgument { name: String },
    BadDataEncoding,
    MissingData,
    UnknownCommand { command: String },
}

/// The index of the first argument equal to `name` that has an argument
/// after it.
pub open spec fn flag_index(args: Seq<Seq<char>>, name: Seq<char>) -> Option<int>
    decreases args.len(),
{
    if args.len() < 2 {
        None
    } else {
        match flag_index(args.drop_last(), name) {
            Some(i) => Some(i),
            None => if args[args.len() - 2] == name {
                Some(args.len() - 2)
            } else {
                None
            },
        }
    }
}

proof fn lemma_flag_index(args: Seq<Seq<char>>, name: Seq<char>)
    ensures
        flag_index(args, name) matches Some(i) ==> 0 <= i && i + 1 < args.len() && args[i] == name,
    decreases args.len(),
{
    if args.len() >= 2 {
        lemma_flag_index(args.drop_last(), name);
    }
}

/// The value after the first `name` among the arguments.
pub open spec fn arg_value(args: Seq<Seq<char>>, name: Seq<char>) -> Option<Seq<char>> {
    match flag_index(args, name) {
        Some(i) => Some(args[i + 1]),
        None => None,
    }
}

/// The value after the first occurrence of `name`, if any.
pub fn optional_arg(args: &Vec<String>, name: &str) -> (r: Option<String>)
    ensures
        match arg_value(args.deep_view(), name@) {
            Some(v) => r matches Some(s) && s@ == v,
            None => r is None,
        },
{
    let ghost av = args.deep_view();
    let n = args.len();
    if n < 2 {
        return None;
    }
    let mut i: usize = 0;
    while i + 1 < n
        invariant
            n == args@.len(),
            av == args.deep_view(),
            n >= 2,
            i + 1 <= n,
            flag_index(av.take(i as int + 1), name@) is None,
        decreases n - i,
    {
        proof {
            assert(av.take(i + 2).drop_last() == av.take(i + 1));
            assert(av.take(i + 2)[i as int] == av[i as int]);
            assert(av[i as int] == args@[i as int]@);
        }
        if str_eq(args[i].as_str(), name) {
            proof {
                assert(flag_index(av.take(i + 2), name@) == Some(i as int));
                lemma_flag_index_prefix(av, name@, i + 2);
                assert(av[i + 1] == args@[i + 1]@);
            }
            return Some(args[i + 1].clone());
        }
        i = i + 1;
    }
    proof {
        assert(av.take(n as int) == av);
    }
    None
}

proof fn lemma_flag_index_prefix(args: Seq<Seq<char>>, name: Seq<char>, n: int)
    requires
        0 <= n <= args.len(),
        flag_index(args.take(n), name) is Some,
    ensures
        flag_index(args, name) == flag_index(args.take(n), name),
    decreases args.len() - n,
{
    if n < args.len() {
        assert(args.take(n + 1).drop_last() == args.take(n));
        lemma_flag_index_prefix(args, name, n + 1);
    } else {
        assert(args.take(n) == args);
    }
}

/// The value after `name`, which must be given.
pub fn required_arg(args: &Vec<String>, name: &str) -> (r: Result<String, ClientError>)
    ensures
        match arg_value(args.deep_view(), name@) {
            Some(v) => r matches Ok(s) && s@ == v,
            None => r matches Err(ClientError::MissingArgument { name: n }) && n@ == name@,
        },
{
    match optional_arg(args, name) {
        Some(v) => Ok(v),
        None => Err(ClientError::MissingArgument { name: name.to_owned() }),
    }
}

/// The data of a message: given in base64 with `--data-b64` (which must be
/// valid), or as text with `--text`, which is sent as its UTF-8 bytes in
/// base64.
pub fn data_arg(args: &Vec<String>) -> (r: Result<String, ClientError>)
    ensures
        match arg_value(args.deep_view(), "--data-b64"@) {
            Some(d) => if base64_decoding(d) is Some {
                r matches Ok(s) && s@ == d
            } else {
                r matches Err(ClientError::BadDataEncoding)
            },
            None => match arg_value(args.deep_view(), "--text"@) {
                Some(t) => r matches Ok(s) && s@ == base64_encoding(utf8_bytes(t)),
                None => r matches Err(ClientError::MissingData),
            },
        },
{
    match optional_arg(args, "--data-b64") {
        Some(d) => {
            if base64_decode(d.as_str()).is_err() {
                return Err(ClientError::BadDataEncoding);
            }
            return Ok(d);
        },
        None => {},
    }
    match optional_arg(args, "--text") {
        Some(t) => {
            let ts = t.as_str();
            proof {
                lemma_utf8_bytes(ts);
            }
            Ok(base64_encode(ts.as_bytes()))
        },
        None => Err(ClientError::MissingData),
    }
}

/// The value of a decimal digit character.
pub open spec fn digit_value(c: char) -> int {
    (c as int) - ('0' as int)
}

pub open spec fn is_digit(c: char) -> bool {
    '0' <= c && c <= '9'
}

/// The number a string of decimal digits writes.
pub open spec fn digits_value(s: Seq<char>) -> int
    decreases s.len(),
{
    if s.len() == 0 {
        0
    } else {
        digits_value(s.drop_last()) * 10 + digit_value(s.last())
    }
}

/// The digits of an unsigned number: the text without a leading `+`.
pub open spec fn unsigned_digits(s: Seq<char>) -> Seq<char> {
    if s.len() > 0 && s[0] == '+' {
        s.drop_first()
    } else {
        s
    }
}

/// What `str::parse` gives for an unsigned number no larger than `max`:
/// an optional `+`, then at least one decimal digit, and a value that fits.
pub open spec fn parsed_unsigned(s: Seq<char>, max: int) -> Option<int> {
    let d = unsigned_digits(s);
    if d.len() > 0 && (forall|i: int| 0 <= i < d.len() ==> is_digit(#[trigger] d[i])) && digits_value(d) <= max {
        Some(digits_value(d))
    } else {
        None
    }
}

proof fn lemma_digits_value_nonneg(s: Seq<char>)
    requires
        forall|i: int| 0 <= i < s.len() ==> is_digit(#[trigger] s[i]),
    ensures
        digits_value(s) >= 0,
    decreases s.len(),
{
    if s.len() > 0 {
        assert forall|i: int| 0 <= i < s.drop_last().len() implies is_digit(#[trigger] s.drop_last()[i]) by {
            assert(s.drop_last()[i] == s[i]);
        }
        lemma_digits_value_nonneg(s.drop_last());
        assert(is_digit(s[s.len() - 1]));
    }
}

proof fn lemma_digits_value_monotone(s: Seq<char>, n: int)
    requires
        0 <= n <= s.len(),
        forall|i: int| 0 <= i < s.len() ==> is_digit(#[trigger] s[i]),
    ensures
        digits_value(s.take(n)) <= digits_value(s),
    decreases s.len() - n,
{
    if n < s.len() {
        lemma_digits_value_monotone(s, n + 1);
        assert(s.take(n + 1).drop_last() == s.take(n));
        let t = s.take(n);
        assert forall|i: int| 0 <= i < t.len() implies is_digit(#[trigger] t[i]) by {
            assert(t[i] == s[i]);
        }
        lemma_digits_value_nonneg(t);
        assert(is_digit(s[n]));
        assert(s.take(n + 1).last() == s[n]);
    } else {
        assert(s.take(n) == s);
    }
}

/// Parses an unsigned decimal number no larger than `max`, as `str::parse`
/// does for the unsigned integer types.
pub fn parse_unsigned(s: &str, max: u64) -> (r: Option<u64>)
    ensures
        match r {
            Some(n) => parsed_unsigned(s@, max as int) == Some(n as int),
            None => parsed_unsigned(s@, max as int) is None,
        },
{
    let n = s.unicode_len();
    let mut start: usize = 0;
    if n > 0 && s.get_char(0) == '+' {
        start = 1;
    }
    let ghost d = unsigned_digits(s@);
    proof {
        assert(d =~= s@.subrange(start as int, n as int));
    }
    if start >= n {
        return None;
    }
    let mut value: u64 = 0;
    let mut i: usize = start;
    while i < n
        invariant
            n == s@.len(),
            start <= i <= n,
            start < n,
            d == s@.subrange(start as int, n as int),
            d == unsigned_digits(s@),
            forall|k: int| 0 <= k < i - start ==> is_digit(#[trigger] d[k]),
            value == digits_value(d.take(i - start)),
            value <= max,
        decreases n - i,
    {
        let c = s.get_char(i);
        proof {
            assert(d[i - start] == c);
        }
        if !('0' <= c && c <= '9') {
            proof {
                assert(!is_digit(d[i - start]));
                assert(!(forall|k: int| 0 <= k < d.len() ==> is_digit(#[trigger] d[k])));
                assert(parsed_unsigned(s@, max as int) is None);
            }
            return None;
        }
        let dv: u64 = (c as u32 - '0' as u32) as u64;
        proof {
            assert(d.take(i - start + 1).drop_last() == d.take(i - start));
            assert(d.take(i - start + 1).last() == c);
            assert(dv == digit_value(c));
            assert(digits_value(d.take(i - start + 1)) == value * 10 + dv);
        }
        if dv > max || value > (max - dv) / 10 {
            proof {
                assert(value * 10 + dv > max) by (nonlinear_arith)
                    requires
                        dv > max || value > (max - dv) / 10,
                        value >= 0,
                ;
                if forall|k: int| 0 <= k < d.len() ==> is_digit(#[trigger] d[k]) {
                    lemma_digits_value_monotone(d, i - start + 1);
                    assert(digits_value(d) > max);
                }
                assert(parsed_unsigned(s@, max as int) is None);
            }
            return None;
        }
        proof {
            assert(value * 10 + dv <= max) by (nonlinear_arith)
                requires
                    value <= (max - dv) / 10,
                    dv <= max,
            ;
        }
        value = value * 10 + dv;
        i = i + 1;
    }
    proof {
        assert(d.take(n - start) == d);
    }
    Some(value)
}


pub enum ClientErrorView {
    MissingArgument { name: Seq<char> },
    BadDataEncoding,
    MissingData,
    UnknownCommand { command: Seq<char> },
}

impl View for ClientError {
    type V = ClientErrorView;

    open spec fn view(&self) -> ClientErrorView {
        match self {
            ClientError::MissingArgument { name } => ClientErrorView::MissingArgument { name: name@ },
            ClientError::BadDataEncoding => ClientErrorView::BadDataEncoding,
            ClientError::MissingData => ClientErrorView::MissingData,
            ClientError::UnknownCommand { command } => ClientErrorView::UnknownCommand { command: command@ },
        }
    }
}

/// What the helper does with its arguments.
pub enum ClientCommand {
    Help,
    Send(ApiRequest),
}

pub enum ClientCommandView {
    Help,
    Send(ApiRequestView),
}

impl View for ClientCommand {
    type V = ClientCommandView;

    open spec fn view(&self) -> ClientCommandView {
        match self {
            ClientCommand::Help => ClientCommandView::Help,
            ClientCommand::Send(r) => ClientCommandView::Send(r@),
        }
    }
}

pub open spec fn client_result_view(r: Result<ClientCommand, ClientError>) -> Result<ClientCommandView, ClientErrorView> {
    match r {
        Ok(c) => Ok(c@),
        Err(e) => Err(e@),
    }
}

/// The value after `name`, or a missing-argument error.
pub open spec fn required_value(args: Seq<Seq<char>>, name: Seq<char>) -> Result<Seq<char>, ClientErrorView> {
    match arg_value(args, name) {
        Some(v) => Ok(v),
        None => Err(ClientErrorView::MissingArgument { name }),
    }
}

/// The message data as `data_arg` gives it.
pub open spec fn data_value(args: Seq<Seq<char>>) -> Result<Seq<char>, ClientErrorView> {
    match arg_value(args, "--data-b64"@) {
        Some(d) => if base64_decoding(d) is Some {
            Ok(d)
        } else {
            Err(ClientErrorView::BadDataEncoding)
        },
        None => match arg_value(args, "--text"@) {
            Some(t) => Ok(base64_encoding(utf8_bytes(t))),
            None => Err(ClientErrorView::MissingData),
        },
    }
}

/// A number option: its value if it parses, else the default.
pub open spec fn number_or(args: Seq<Seq<char>>, name: Seq<char>, max: int, default: int) -> int {
    match arg_value(args, name) {
        Some(v) => match parsed_unsigned(v, max) {
            Some(n) => n,
            None => default,
        },
        None => default,
    }
}

/// The request the helper sends for its arguments, or help, or an error.
pub open spec fn client_request(args: Seq<Seq<char>>) -> Result<ClientCommandView, ClientErrorView> {
    if args.len() == 0 || args[0] == "help"@ || args[0] == "--help"@ {
        Ok(ClientCommandView::Help)
    } else {
        let c = args[0];
        if c == "status"@ || c == "paths"@ || c == "shutdown"@ {
            Ok(ClientCommandView::Send(bare_request(c)))
        } else if c == "peers"@ || c == "list_peers"@ {
            Ok(ClientCommandView::Send(bare_request("list_peers"@)))
        } else if c == "connections"@ || c == "list_connections"@ {
            Ok(ClientCommandView::Send(bare_request("list_connections"@)))
        } else if c == "addons"@ || c == "list_addons"@ {
            Ok(ClientCommandView::Send(bare_request("list_addons"@)))
        } else if c == "reload-addons"@ || c == "reload_addons"@ {
            Ok(ClientCommandView::Send(bare_request("reload_addons"@)))
        } else if c == "trusted"@ || c == "list_trusted_devices"@ {
            Ok(ClientCommandView::Send(bare_request("list_trusted_devices"@)))
        } else if c == "trust-mac"@ || c == "add_trusted_device"@ {
            match required_value(args, "--mac"@) {
                Err(e) => Err(e),
                Ok(mac) => Ok(
                    ClientCommandView::Send(
                        ApiRequestView {
                            mac: Some(mac),
                            name: Some(
                                match arg_value(args, "--name"@) {
                                    Some(n) => n,
                                    None => mac,
                                },
                            ),
                            ..bare_request("add_trusted_device"@)
                        },
                    ),
                ),
            }
        } else if c == "remove-trusted-mac"@ || c == "remove_trusted_device"@ {
            match required_value(args, "--mac"@) {
                Err(e) => Err(e),
                Ok(mac) => Ok(ClientCommandView::Send(ApiRequestView { mac: Some(mac), ..bare_request("remove_trusted_device"@) })),
            }
        } else if c == "connect"@ || c == "connect_device"@ {
            Ok(
                ClientCommandView::Send(
                    ApiRequestView {
                        peer_id: arg_value(args, "--peer"@),
                        mac: arg_value(args, "--mac"@),
                        ..bare_request("connect_device"@)
                    },
                ),
            )
        } else if c == "send"@ || c == "send_message"@ {
            match (required_value(args, "--peer"@), required_value(args, "--service"@), data_value(args)) {
                (Err(e), _, _) => Err(e),
                (Ok(_), Err(e), _) => Err(e),
                (Ok(_), Ok(_), Err(e)) => Err(e),
                (Ok(p), Ok(s), Ok(d)) => Ok(
                    ClientCommandView::Send(
                        ApiRequestView {
                            peer_id: Some(p),
                            service: Some(s),
                            data_b64: Some(d),
                            ..bare_request("send_message"@)
                        },
                    ),
                ),
            }
        } else if c == "poll"@ || c == "poll_events"@ {
            Ok(
                ClientCommandView::Send(
                    ApiRequestView {
                        service: arg_value(args, "--service"@),
                        max_events: Some(number_or(args, "--max"@, usize::MAX as int, 100) as usize),
                        ..bare_request("poll_events"@)
                    },
                ),
            )
        } else if c == "wait"@ || c == "wait_events"@ {
            Ok(
                ClientCommandView::Send(
                    ApiRequestView {
                        service: arg_value(args, "--service"@),
                        max_events: Some(number_or(args, "--max"@, usize::MAX as int, 100) as usize),
                        wait_ms: Some(number_or(args, "--wait-ms"@, u64::MAX as int, 30000) as u64),
                        ..bare_request("wait_events"@)
                    },
                ),
            )
        } else if c == "open"@ || c == "open_channel"@ {
            match (required_value(args, "--peer"@), required_value(args, "--service"@)) {
                (Err(e), _) => Err(e),
                (Ok(_), Err(e)) => Err(e),
                (Ok(p), Ok(s)) => Ok(
                    ClientCommandView::Send(
                        ApiRequestView { peer_id: Some(p), service: Some(s), ..bare_request("open_channel"@) },
                    ),
                ),
            }
        } else if c == "channel-send"@ || c == "channel_send"@ {
            match (
                required_value(args, "--peer"@),
                required_value(args, "--service"@),
                required_value(args, "--channel"@),
                data_value(args),
            ) {
                (Err(e), _, _, _) => Err(e),
                (Ok(_), Err(e), _, _) => Err(e),
                (Ok(_), Ok(_), Err(e), _) => Err(e),
                (Ok(_), Ok(_), Ok(_), Err(e)) => Err(e),
                (Ok(p), Ok(s), Ok(ch), Ok(d)) => Ok(
                    ClientCommandView::Send(
                        ApiRequestView {
                            peer_id: Some(p),
                            service: Some(s),
                            channel_id: Some(ch),
                            data_b64: Some(d),
                            ..bare_request("channel_send"@)
                        },
                    ),
                ),
            }
        } else if c == "channel-close"@ || c == "channel_close"@ {
            match (required_value(args, "--peer"@), required_value(args, "--service"@), required_value(args, "--channel"@)) {
                (Err(e), _, _) => Err(e),
                (Ok(_), Err(e), _) => Err(e),
                (Ok(_), Ok(_), Err(e)) => Err(e),
                (Ok(p), Ok(s), Ok(ch)) => Ok(
                    ClientCommandView::Send(
                        ApiRequestView {
                            peer_id: Some(p),
                            service: Some(s),
                            channel_id: Some(ch),
                            reason: Some(
                                match arg_value(args, "--reason"@) {
                                    Some(r) => r,
                                    None => "normal"@,
                                },
                            ),
                            ..bare_request("channel_close"@)
                        },
                    ),
                ),
            }
        } else {
            Err(ClientErrorView::UnknownCommand { command: c })
        }
    }
}

fn number_arg(args: &Vec<String>, name: &str, max: u64, default: u64) -> (r: u64)
    requires
        default <= max,
    ensures
        r == number_or(args.deep_view(), name@, max as int, default as int),
        r <= max,
{
    match optional_arg(args, name) {
        Some(v) => match parse_unsigned(v.as_str(), max) {
            Some(n) => n,
            None => default,
        },
        None => default,
    }
}

/// What the helper sends for its arguments: help, or the request for the
/// command named first, with its options.
pub fn build_client_request(args: &Vec<String>) -> (r: Result<ClientCommand, ClientError>)
    ensures
        client_result_view(r) == client_request(args.deep_view()),
{
    let ghost av = args.deep_view();
    if args.len() == 0 {
        return Ok(ClientCommand::Help);
    }
    let c = args[0].as_str();
    proof {
        assert(av[0] == c@);
    }
    if str_eq(c, "help") || str_eq(c, "--help") {
        return Ok(ClientCommand::Help);
    }
    if str_eq(c, "status") || str_eq(c, "paths") || str_eq(c, "shutdown") {
        return Ok(ClientCommand::Send(ApiRequest::bare(c)));
    }
    if str_eq(c, "peers") || str_eq(c, "list_peers") {
        return Ok(ClientCommand::Send(ApiRequest::bare("list_peers")));
    }
    if str_eq(c, "connections") || str_eq(c, "list_connections") {
        return Ok(ClientCommand::Send(ApiRequest::bare("list_connections")));
    }
    if str_eq(c, "addons") || str_eq(c, "list_addons") {
        return Ok(ClientCommand::Send(ApiRequest::bare("list_addons")));
    }
    if str_eq(c, "reload-addons") || str_eq(c, "reload_addons") {
        return Ok(ClientCommand::Send(ApiRequest::bare("reload_addons")));
    }
    if str_eq(c, "trusted") || str_eq(c, "list_trusted_devices") {
        return Ok(ClientCommand::Send(ApiRequest::bare("list_trusted_devices")));
    }
    if str_eq(c, "trust-mac") || str_eq(c, "add_trusted_device") {
        let mac = required_arg(args, "--mac")?;
        let name = match optional_arg(args, "--name") {
            Some(n) => n,
            None => mac.clone(),
        };
        let mut req = ApiRequest::bare("add_trusted_device");
        req.mac = Some(mac);
        req.name = Some(name);
        return Ok(ClientCommand::Send(req));
    }
    if str_eq(c, "remove-trusted-mac") || str_eq(c, "remove_trusted_device") {
        let mac = required_arg(args, "--mac")?;
        let mut req = ApiRequest::bare("remove_trusted_device");
        req.mac = Some(mac);
        return Ok(ClientCommand::Send(req));
    }
    if str_eq(c, "connect") || str_eq(c, "connect_device") {
        let mut req = ApiRequest::bare("connect_device");
        req.peer_id = optional_arg(args, "--peer");
        req.mac = optional_arg(args, "--mac");
        return Ok(ClientCommand::Send(req));
    }
    if str_eq(c, "send") || str_eq(c, "send_message") {
        let peer = required_arg(args, "--peer")?;
        let service = required_arg(args, "--service")?;
        let data = data_arg(args)?;
        let mut req = ApiRequest::bare("send_message");
        req.peer_id = Some(peer);
        req.service = Some(service);
        req.data_b64 = Some(data);
        return Ok(ClientCommand::Send(req));
    }
    if str_eq(c, "poll") || str_eq(c, "poll_events") {
        let mut req = ApiRequest::bare("poll_events");
        req.service = optional_arg(args, "--service");
        req.max_events = Some(number_arg(args, "--max", usize::MAX as u64, 100) as usize);
        return Ok(ClientCommand::Send(req));
    }
    if str_eq(c, "wait") || str_eq(c, "wait_events") {
        let mut req = ApiRequest::bare("wait_events");
        req.service = optional_arg(args, "--service");
        req.max_events = Some(number_arg(args, "--max", usize::MAX as u64, 100) as usize);
        req.wait_ms = Some(number_arg(args, "--wait-ms", u64::MAX, 30000));
        return Ok(ClientCommand::Send(req));
    }
    if str_eq(c, "open") || str_eq(c, "open_channel") {
        let peer = required_arg(args, "--peer")?;
        let service = required_arg(args, "--service")?;
        let mut req = ApiRequest::bare("open_channel");
        req.peer_id = Some(peer);
        req.service = Some(service);
        return Ok(ClientCommand::Send(req));
    }
    if str_eq(c, "channel-send") || str_eq(c, "channel_send") {
        let peer = required_arg(args, "--peer")?;
        let service = required_arg(args, "--service")?;
        let channel = required_arg(args, "--channel")?;
        let data = data_arg(args)?;
        let mut req = ApiRequest::bare("channel_send");
        req.peer_id = Some(peer);
        req.service = Some(service);
        req.channel_id = Some(channel);
        req.data_b64 = Some(data);
        return Ok(ClientCommand::Send(req));
    }
    if str_eq(c, "channel-close") || str_eq(c, "channel_close") {
        let peer = required_arg(args, "--peer")?;
        let service = required_arg(args, "--service")?;
        let channel = required_arg(args, "--channel")?;
        let reason = match optional_arg(args, "--reason") {
            Some(r) => r,
            None => "normal".to_owned(),
        };
        let mut req = ApiRequest::bare("channel_close");
        req.peer_id = Some(peer);
        req.service = Some(service);
        req.channel_id = Some(channel);
        req.reason = Some(reason);
        return Ok(ClientCommand::Send(req));
    }
    Err(ClientError::UnknownCommand { command: c.to_owned() })
}

/// The first occurrence of a flag that has an argument after it is the one
/// whose value counts.
proof fn lemma_flag_index_first(args: Seq<Seq<char>>, name: Seq<char>, i: int)
    requires
        0 <= i,
        i + 1 < args.len(),
        args[i] == name,
        forall|j: int| 0 <= j < i ==> args[j] != name,
    ensures
        flag_index(args, name) == Some(i),
    decreases args.len(),
{
    if args.len() > i + 2 {
        lemma_flag_index_first(args.drop_last(), name, i);
    } else {
        lemma_flag_index(args.drop_last(), name);
        if let Some(k) = flag_index(args.drop_last(), name) {
            assert(args[k] == name);
        }
    }
}

/// A flag that never comes with an argument after it has no value.
proof fn lemma_flag_index_absent(args: Seq<Seq<char>>, name: Seq<char>)
    requires
        forall|j: int| 0 <= j && j + 1 < args.len() ==> args[j] != name,
    ensures
        flag_index(args, name) is None,
{
    lemma_flag_index(args, name);
}

/// The connect command sends the MAC address given after `--mac` and the
/// peer id given after `--peer` (the first of each that has a value after
/// it), nothing where the flag is not given, and nothing else.
pub proof fn lemma_connect_sends_mac_and_peer(args: Seq<Seq<char>>)
    requires
        args.len() > 0,
        args[0] == "connect"@ || args[0] == "connect_device"@,
    ensures
        client_request(args) matches Ok(ClientCommandView::Send(req)) && {
            &&& req.cmd == "connect_device"@
            &&& forall|i: int|
                0 < i && i + 1 < args.len() && #[trigger] args[i] == "--mac"@ && (forall|j: int| 0 <= j < i ==> args[j]
                    != "--mac"@) ==> req.mac == Some(args[i + 1])
            &&& (forall|i: int| 0 <= i && i + 1 < args.len() ==> #[trigger] args[i] != "--mac"@) ==> req.mac is None
            &&& forall|i: int|
                0 < i && i + 1 < args.len() && #[trigger] args[i] == "--peer"@ && (forall|j: int| 0 <= j < i ==> args[j]
                    != "--peer"@) ==> req.peer_id == Some(args[i + 1])
            &&& (forall|i: int| 0 <= i && i + 1 < args.len() ==> #[trigger] args[i] != "--peer"@) ==> req.peer_id is None
            &&& req.service is None && req.data_b64 is None && req.space_id is None && req.name is None
        },
{
    reveal_strlit("help");
    reveal_strlit("--help");
    reveal_strlit("status");
    reveal_strlit("paths");
    reveal_strlit("shutdown");
    reveal_strlit("peers");
    reveal_strlit("list_peers");
    reveal_strlit("connections");
    reveal_strlit("list_connections");
    reveal_strlit("addons");
    reveal_strlit("list_addons");
    reveal_strlit("reload-addons");
    reveal_strlit("reload_addons");
    reveal_strlit("trusted");
    reveal_strlit("list_trusted_devices");
    reveal_strlit("trust-mac");
    reveal_strlit("add_trusted_device");
    reveal_strlit("remove-trusted-mac");
    reveal_strlit("remove_trusted_device");
    reveal_strlit("connect");
    reveal_strlit("connect_device");
    reveal_strlit("--mac");
    reveal_strlit("--peer");
    assert("help"@.len() == 4 && "--help"@.len() == 6 && "connect"@.len() == 7 && "connect_device"@.len() == 14);
    assert(args[0] != "help"@);
    assert(args[0] != "--help"@);
    assert(args[0] != "status"@);
    assert(args[0] != "paths"@);
    assert(args[0] != "shutdown"@);
    assert(args[0] != "peers"@);
    assert(args[0] != "list_peers"@);
    assert(args[0] != "connections"@);
    assert(args[0] != "list_connections"@);
    assert(args[0] != "addons"@);
    assert(args[0] != "list_addons"@);
    assert(args[0] != "reload-addons"@);
    assert(args[0] != "reload_addons"@);
    assert("trusted"@[0] == 't' && "connect"@[0] == 'c' && "trusted"@.len() == 7);
    assert(args[0] != "trusted"@);
    assert(args[0] != "list_trusted_devices"@);
    assert(args[0] != "trust-mac"@);
    assert(args[0] != "add_trusted_device"@);
    assert(args[0] != "remove-trusted-mac"@);
    assert(args[0] != "remove_trusted_device"@);
    assert(client_request(args) == Ok::<ClientCommandView, ClientErrorView>(
        ClientCommandView::Send(
            ApiRequestView {
                peer_id: arg_value(args, "--peer"@),
                mac: arg_value(args, "--mac"@),
                ..bare_request("connect_device"@)
            },
        ),
    ));
    assert forall|i: int|
        0 < i && i + 1 < args.len() && #[trigger] args[i] == "--mac"@ && (forall|j: int| 0 <= j < i ==> args[j]
            != "--mac"@) implies arg_value(args, "--mac"@) == Some(args[i + 1]) by {
        lemma_flag_index_first(args, "--mac"@, i);
    }
    assert forall|i: int|
        0 < i && i + 1 < args.len() && #[trigger] args[i] == "--peer"@ && (forall|j: int| 0 <= j < i ==> args[j]
            != "--peer"@) implies arg_value(args, "--peer"@) == Some(args[i + 1]) by {
        lemma_flag_index_first(args, "--peer"@, i);
    }
    if forall|i: int| 0 <= i && i + 1 < args.len() ==> #[trigger] args[i] != "--mac"@ {
        lemma_flag_index_absent(args, "--mac"@);
    }
    if forall|i: int| 0 <= i && i + 1 < args.len() ==> #[trigger] args[i] != "--peer"@ {
        lemma_flag_index_absent(args, "--peer"@);
    }
}

/// The value of a flag is the argument after its first occurrence that has
/// one, and there is none when no occurrence has an argument after it.
pub proof fn lemma_arg_value_first(args: Seq<Seq<char>>, name: Seq<char>)
    ensures
        forall|i: int|
            0 <= i && i + 1 < args.len() && #[trigger] args[i] == name && (forall|j: int| 0 <= j < i ==> args[j] != name)
                ==> arg_value(args, name) == Some(args[i + 1]),
        (forall|i: int| 0 <= i && i + 1 < args.len() ==> #[trigger] args[i] != name) ==> arg_value(args, name) is None,
        arg_value(args, name) is Some ==> exists|i: int| 0 <= i && i + 1 < args.len() && #[trigger] args[i] == name,
{
    assert forall|i: int|
        0 <= i && i + 1 < args.len() && #[trigger] args[i] == name && (forall|j: int| 0 <= j < i ==> args[j] != name)
            implies arg_value(args, name) == Some(args[i + 1]) by {
        lemma_flag_index_first(args, name, i);
    }
    lemma_flag_index(args, name);
}

/// Every value a request carries comes from the flag that names it: a peer
/// id from `--peer`, a MAC address from `--mac`, a service from
/// `--service`, a channel from `--channel`, a name from `--name` (or the MAC
/// address), and message data from `--data-b64`, or else from `--text`
/// encoded in base64.
pub proof fn lemma_request_fields_from_flags(args: Seq<Seq<char>>)
    ensures
        client_request(args) matches Ok(ClientCommandView::Send(req)) ==> {
            &&& req.peer_id matches Some(v) ==> arg_value(args, "--peer"@) == Some(v)
            &&& req.mac matches Some(v) ==> arg_value(args, "--mac"@) == Some(v)
            &&& req.service matches Some(v) ==> arg_value(args, "--service"@) == Some(v)
            &&& req.channel_id matches Some(v) ==> arg_value(args, "--channel"@) == Some(v)
            &&& req.name matches Some(v) ==> (arg_value(args, "--name"@) == Some(v) || (arg_value(args, "--name"@)
                is None && req.mac == Some(v)))
            &&& req.data_b64 matches Some(d) ==> (arg_value(args, "--data-b64"@) == Some(d) || (arg_value(
                args,
                "--data-b64"@,
            ) is None && (arg_value(args, "--text"@) matches Some(t) && d == base64_encoding(utf8_bytes(t)))))
            &&& req.space_id is None
            &&& req.target_peer_id is None
            &&& req.consumer_id is None
        },
{
}

} // verus!
