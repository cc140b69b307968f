//! The place where a workload is put together: the bytes emitted so far,
//! the description of the terminal they are meant for, and a source of
//! random numbers.

use vstd::prelude::*;
use vstd::string::*;

use crate::result::Capability;
use crate::result::Error;
use crate::result::Result;
use crate::template::is_tame;
use crate::template::tame;

verus! {

/// A terminal description as the terminfo library holds it.
#[verifier::external_type_specification]
#[verifier::external_body]
pub struct ExDatabase(terminfo::Database);

/// The thread-local random number generator of the rand library.
#[verifier::external_type_specification]
#[verifier::external_body]
pub struct ExThreadRng(rand::rngs::ThreadRng);

/// The string capabilities that a terminal description holds, by the names
/// under which the terminfo library finds them.
pub uninterp spec fn string_capabilities(db: terminfo::Database) -> Map<Seq<char>, Seq<u8>>;

/// What the terminfo library makes of a tame capability string and its
/// numeric parameters: the bytes to send to the terminal, or `None` where
/// the string cannot be expanded. Of a string that is not tame this says
/// nothing: the library is never asked.
pub uninterp spec fn expansion(template: Seq<u8>, parameters: Seq<u16>) -> Option<Seq<u8>>;

/// Looks up the string capability `name` with `Database::raw` of terminfo.
/// Trusted: the result is the string that the description holds under
/// `name`, and `None` where it holds none or holds a flag or a number
/// there.
#[verifier::external_body]
fn lookup(db: &terminfo::Database, name: &str) -> (template: Option<Vec<u8>>)
    ensures
        template is Some <==> string_capabilities(*db).contains_key(name@),
        template matches Some(bytes) ==> string_capabilities(*db)[name@] == bytes@,
{
    match db.raw(name) {
        Some(terminfo::Value::String(bytes)) => Some(bytes.clone()),
        Some(terminfo::Value::Number(_)) => None,
        Some(terminfo::Value::True) => None,
        None => None,
    }
}

/// Expands `template` with `Expand::expand` of terminfo, in a fresh
/// expansion context and into memory. Trusted: for a tame string the call
/// returns, and its outcome depends on the string and the parameters alone;
/// nothing is claimed about the bytes themselves. A failure comes back as
/// the library's own message.
///
/// The call is made for tame strings only. In a tame string every `%`
/// begins an escape that the library's parser takes, so that each step of
/// the expansion uses up input. Nothing is divided, so that nothing is
/// divided by zero or overflows in a division. With parameters of 16 bits,
/// constants of six digits and ten sums at most, every number stays below
/// 2^30 in size, so that no sum leaves 32 bits. No number is printed with a
/// width, so that no padding is computed.
#[verifier::external_body]
fn expand(template: &Vec<u8>, parameters: &Vec<u16>) -> (expanded: std::result::Result<
    Vec<u8>,
    String,
>)
    requires
        tame(template@),
    ensures
        expanded matches Ok(bytes) ==> expansion(template@, parameters@) == Some(bytes@),
        expanded is Err ==> expansion(template@, parameters@) is None,
{
    let parameters: Vec<terminfo::expand::Parameter> =
        parameters.iter().map(|p| terminfo::expand::Parameter::from(*p)).collect();
    let mut output = Vec::new();
    let mut context = terminfo::expand::Context::default();
    match terminfo::Expand::expand(template.as_slice(), &mut output, &parameters, &mut context) {
        Ok(()) => Ok(output),
        Err(error) => Err(error.to_string()),
    }
}

/// Hands out the thread-local generator with `thread_rng` of rand.
#[verifier::external_body]
fn thread_rng() -> rand::rngs::ThreadRng {
    rand::thread_rng()
}

/// Draws a number with `Rng::gen_range` of rand. Trusted: the number lies
/// in `low..high`. Which one it is, is up to chance.
#[verifier::external_body]
fn draw(rng: &mut rand::rngs::ThreadRng, low: u16, high: u16) -> (value: u16)
    requires
        low < high,
    ensures
        low <= value < high,
{
    rand::Rng::gen_range(rng, low, high)
}

impl Capability {
    /// The long terminfo name of the capability.
    pub open spec fn spec_name(self) -> Seq<char> {
        match self {
            Capability::EnterCaMode => "enter_ca_mode"@,
            Capability::ExitCaMode => "exit_ca_mode"@,
            Capability::CursorAddress => "cursor_address"@,
            Capability::SetAForeground => "set_a_foreground"@,
            Capability::ExitAttributeMode => "exit_attribute_mode"@,
            Capability::ChangeScrollRegion => "change_scroll_region"@,
        }
    }

    /// The long terminfo name of the capability.
    pub fn name(self) -> (name: &'static str)
        ensures
            name@ == self.spec_name(),
    {
        match self {
            Capability::EnterCaMode => "enter_ca_mode",
            Capability::ExitCaMode => "exit_ca_mode",
            Capability::CursorAddress => "cursor_address",
            Capability::SetAForeground => "set_a_foreground",
            Capability::ExitAttributeMode => "exit_attribute_mode",
            Capability::ChangeScrollRegion => "change_scroll_region",
        }
    }
}

/// One thing that was emitted: the escape sequence of a capability, or
/// plain bytes.
pub struct Emission {
    /// The capability and the parameters that the bytes stand for; `None`
    /// for bytes that were written as they are.
    pub escape: Option<(Capability, Seq<u16>)>,
    /// The bytes themselves.
    pub bytes: Seq<u8>,
}

impl Emission {
    /// The capability that the emission stands for, if it is an escape
    /// sequence.
    pub open spec fn capability(self) -> Option<Capability> {
        match self.escape {
            Some(pair) => Some(pair.0),
            None => None,
        }
    }

    /// The parameters of the escape sequence; none for plain bytes.
    pub open spec fn parameters(self) -> Seq<u16> {
        match self.escape {
            Some(pair) => pair.1,
            None => Seq::empty(),
        }
    }

    /// The emission is a cursor movement.
    pub open spec fn moves_cursor(self) -> bool {
        self.capability() == Some(Capability::CursorAddress)
    }
}

/// Plain bytes, as an emission.
pub open spec fn text(bytes: Seq<u8>) -> Emission {
    Emission { escape: None, bytes }
}

/// The escape sequence `bytes` of `capability` with `parameters`, as an
/// emission.
pub open spec fn escape(capability: Capability, parameters: Seq<u16>, bytes: Seq<u8>) -> Emission {
    Emission { escape: Some((capability, parameters)), bytes }
}

/// The bytes of `trace`, one emission after the other.
pub open spec fn flattened(trace: Seq<Emission>) -> Seq<u8>
    decreases trace.len(),
{
    if trace.len() == 0 {
        Seq::empty()
    } else {
        flattened(trace.drop_last()) + trace.last().bytes
    }
}

/// Mathematical content of a [`Context`].
pub struct ContextView {
    /// The bytes emitted so far.
    pub out: Seq<u8>,
    /// The string capabilities of the terminal, by name.
    pub capabilities: Map<Seq<char>, Seq<u8>>,
    /// What was emitted so far, piece by piece and in order.
    pub trace: Seq<Emission>,
}

/// The bytes that `capability` with `parameters` comes to on a terminal
/// with the string capabilities `capabilities`, or `None` where the
/// terminal lacks the capability, its string is not tame, or its string
/// cannot be expanded.
pub open spec fn expanded(
    capabilities: Map<Seq<char>, Seq<u8>>,
    capability: Capability,
    parameters: Seq<u16>,
) -> Option<Seq<u8>> {
    if capabilities.contains_key(capability.spec_name()) && tame(
        capabilities[capability.spec_name()],
    ) {
        expansion(capabilities[capability.spec_name()], parameters)
    } else {
        None
    }
}

/// `emission` is what the terminal makes of it: plain bytes, or the bytes
/// that its capability expands to with its parameters.
pub open spec fn genuine(capabilities: Map<Seq<char>, Seq<u8>>, emission: Emission) -> bool {
    emission.escape matches Some((capability, parameters)) ==> expanded(
        capabilities,
        capability,
        parameters,
    ) == Some(emission.bytes)
}

/// `after` is `before` with `emission` behind it.
pub open spec fn appended(before: ContextView, emission: Emission, after: ContextView) -> bool {
    &&& after.out == before.out + emission.bytes
    &&& after.capabilities == before.capabilities
    &&& after.trace == before.trace.push(emission)
}

/// `after` and `outcome` are what emitting `capability` with `parameters`
/// makes of `before`: the expansion is appended and its length reported, or
/// nothing changes and the failure is reported.
pub open spec fn emitted(
    before: ContextView,
    capability: Capability,
    parameters: Seq<u16>,
    after: ContextView,
    outcome: Result<usize>,
) -> bool {
    match expanded(before.capabilities, capability, parameters) {
        Some(bytes) => {
            &&& outcome matches Ok(count)
            &&& count == bytes.len()
            &&& appended(before, escape(capability, parameters, bytes), after)
        },
        None => {
            &&& outcome is Err
            &&& after == before
            &&& outcome == Err::<usize, Error>(Error::Missing(capability))
                <==> !before.capabilities.contains_key(capability.spec_name())
            &&& before.capabilities.contains_key(capability.spec_name())
                ==> outcome matches Err(Error::Terminfo(_))
        },
    }
}

/// Printable ASCII: the bytes from the blank to the tilde.
pub open spec fn printable(byte: u8) -> bool {
    32 <= byte < 127
}

/// Where a workload is put together.
///
/// A context gathers the bytes of the workload in memory and keeps note of
/// what they stand for; sending them to a sink is left to the caller.
pub struct Context {
    out: Vec<u8>,
    db: terminfo::Database,
    rng: rand::rngs::ThreadRng,
    trace: Ghost<Seq<Emission>>,
}

impl View for Context {
    type V = ContextView;

    closed spec fn view(&self) -> ContextView {
        ContextView {
            out: self.out@,
            capabilities: string_capabilities(self.db),
            trace: self.trace@,
        }
    }
}

impl Context {
    /// A context for the terminal that `db` describes, with nothing emitted.
    pub fn new(db: terminfo::Database) -> (context: Self)
        ensures
            context@.out == Seq::<u8>::empty(),
            context@.capabilities == string_capabilities(db),
            context@.trace == Seq::<Emission>::empty(),
    {
        Context { out: Vec::new(), db, rng: thread_rng(), trace: Ghost(Seq::empty()) }
    }

    /// The bytes emitted so far.
    pub fn output(&self) -> (bytes: &[u8])
        ensures
            bytes@ == self@.out,
    {
        self.out.as_slice()
    }

    /// The number of bytes emitted so far.
    pub fn len(&self) -> (count: usize)
        ensures
            count == self@.out.len(),
    {
        self.out.len()
    }

    /// Draws a number from `low..high`; which one is up to chance.
    pub fn gen_range(&mut self, low: u16, high: u16) -> (value: u16)
        requires
            low < high,
        ensures
            low <= value < high,
            final(self)@ == old(self)@,
    {
        draw(&mut self.rng, low, high)
    }

    /// Hands over the bytes emitted so far.
    pub fn into_output(self) -> (bytes: Vec<u8>)
        ensures
            bytes@ == self@.out,
    {
        self.out
    }

    /// Takes in what became of `capability` with `parameters`: appends the
    /// bytes of the expansion and reports their number, or appends nothing
    /// and reports the failure with the message that came with it.
    pub fn put(
        &mut self,
        capability: Capability,
        parameters: &Vec<u16>,
        expansion: std::result::Result<Vec<u8>, String>,
    ) -> (written: Result<usize>)
        ensures
            match expansion {
                Ok(bytes) => written == Ok::<usize, Error>(bytes.len()) && appended(
                    old(self)@,
                    escape(capability, parameters@, bytes@),
                    final(self)@,
                ),
                Err(message) => written == Err::<usize, Error>(Error::Terminfo(message))
                    && final(self)@ == old(self)@,
            },
    {
        match expansion {
            Ok(bytes) => {
                let mut bytes = bytes;
                let count = bytes.len();
                proof {
                    self.trace@ = self.trace@.push(escape(capability, parameters@, bytes@));
                }
                self.out.append(&mut bytes);
                Ok(count)
            },
            Err(message) => Err(Error::Terminfo(message)),
        }
    }

    /// Emits `capability` expanded with `parameters`. The string of the
    /// capability is expanded only if it is tame; one that is not, is
    /// reported as a failure to expand it.
    fn emit(&mut self, capability: Capability, parameters: &Vec<u16>) -> (written: Result<usize>)
        ensures
            emitted(old(self)@, capability, parameters@, final(self)@, written),
    {
        match lookup(&self.db, capability.name()) {
            Some(template) => {
                if is_tame(&template) {
                    self.put(capability, parameters, expand(&template, parameters))
                } else {
                    Err(Error::Terminfo(String::from_str("The capability string is not tame.")))
                }
            },
            None => Err(Error::Missing(capability)),
        }
    }

    /// Enters the alternate screen.
    pub fn smcup(&mut self) -> (written: Result<usize>)
        ensures
            emitted(old(self)@, Capability::EnterCaMode, Seq::empty(), final(self)@, written),
    {
        self.emit(Capability::EnterCaMode, &Vec::new())
    }

    /// Leaves the alternate screen.
    pub fn rmcup(&mut self) -> (written: Result<usize>)
        ensures
            emitted(old(self)@, Capability::ExitCaMode, Seq::empty(), final(self)@, written),
    {
        self.emit(Capability::ExitCaMode, &Vec::new())
    }

    /// Sends the cursor to `line` and `col`, both counted from zero.
    pub fn cup(&mut self, line: u16, col: u16) -> (written: Result<usize>)
        ensures
            emitted(
                old(self)@,
                Capability::CursorAddress,
                seq![line, col],
                final(self)@,
                written,
            ),
    {
        let mut parameters: Vec<u16> = Vec::new();
        parameters.push(line);
        parameters.push(col);
        assert(parameters@ =~= seq![line, col]);
        self.emit(Capability::CursorAddress, &parameters)
    }

    /// Writes `count` printable ASCII characters, each drawn at random.
    pub fn write_ascii(&mut self, count: usize) -> (written: Result<usize>)
        ensures
            written == Ok::<usize, Error>(count),
            final(self)@.out.len() == old(self)@.out.len() + count,
            forall|i: int|
                old(self)@.out.len() <= i < final(self)@.out.len() ==> printable(
                    #[trigger] final(self)@.out[i],
                ),
            appended(
                old(self)@,
                text(final(self)@.out.skip(old(self)@.out.len() as int)),
                final(self)@,
            ),
    {
        let ghost before = self.out@;
        let mut done: usize = 0;
        while done < count
            invariant
                done <= count,
                self.out@.len() == before.len() + done,
                self.out@.take(before.len() as int) == before,
                forall|i: int| before.len() <= i < self.out@.len() ==> printable(#[trigger] self.out@[i]),
                string_capabilities(self.db) == string_capabilities(old(self).db),
                self.trace@ == old(self).trace@,
            decreases count - done,
        {
            let byte = self.gen_range(32, 127);
            self.out.push(byte as u8);
            done += 1;
            assert(self.out@.take(before.len() as int) =~= before);
        }
        proof {
            let run = self.out@.skip(before.len() as int);
            self.trace@ = self.trace@.push(text(run));
            assert(self.out@ =~= before + run);
        }
        Ok(count)
    }

    /// Sets the foreground colour to the colour of index `v`.
    pub fn setaf(&mut self, v: u16) -> (written: Result<usize>)
        ensures
            emitted(old(self)@, Capability::SetAForeground, seq![v], final(self)@, written),
    {
        let mut parameters: Vec<u16> = Vec::new();
        parameters.push(v);
        assert(parameters@ =~= seq![v]);
        self.emit(Capability::SetAForeground, &parameters)
    }

    /// Turns all attributes off.
    pub fn sgr0(&mut self) -> (written: Result<usize>)
        ensures
            emitted(
                old(self)@,
                Capability::ExitAttributeMode,
                Seq::empty(),
                final(self)@,
                written,
            ),
    {
        self.emit(Capability::ExitAttributeMode, &Vec::new())
    }

    /// Confines scrolling to the lines from `top` to `bottom`.
    pub fn csr(&mut self, top: u16, bottom: u16) -> (written: Result<usize>)
        ensures
            emitted(
                old(self)@,
                Capability::ChangeScrollRegion,
                seq![top, bottom],
                final(self)@,
                written,
            ),
    {
        let mut parameters: Vec<u16> = Vec::new();
        parameters.push(top);
        parameters.push(bottom);
        assert(parameters@ =~= seq![top, bottom]);
        self.emit(Capability::ChangeScrollRegion, &parameters)
    }

    /// Emits `bytes` as they are.
    pub fn write(&mut self, bytes: &[u8]) -> (written: usize)
        ensures
            written == bytes@.len(),
            appended(old(self)@, text(bytes@), final(self)@),
    {
        proof {
            self.trace@ = self.trace@.push(text(bytes@));
        }
        self.out.extend_from_slice(bytes);
        assert(self.out@ =~= old(self).out@ + bytes@);
        bytes.len()
    }
}

} // verus!
