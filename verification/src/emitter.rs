//! Writing the text of a Ninja file.

use crate::path::FilePath;
use crate::refs::{SetupRef, StateRef};
use figment::Figment;
use vstd::prelude::*;
use vstd::utf8::{
    decode_utf8, encode_utf8, encode_utf8_decode_utf8, is_ascii_chars_encode_utf8,
};

verus! {

/// Declares `figment::Figment`, a collection of configuration values.
#[verifier::external_type_specification]
#[verifier::external_body]
pub struct ExFigment(Figment);

/// Declares `figment::Error`, which says why a value cannot be had.
#[verifier::external_type_specification]
#[verifier::external_body]
pub struct ExFigmentError(figment::Error);

/// Declares `std::io::Error`, the error that a setup or a build may end with.
#[verifier::external_type_specification]
#[verifier::external_body]
pub struct ExIoError(std::io::Error);

/// The strings that a configuration holds, each under the key by which
/// `Figment::extract_inner` finds it. Keys for which it fails are not in the map.
pub uninterp spec fn config_strings(config: Figment) -> Map<Seq<char>, Seq<char>>;

/// Calls `Figment::extract_inner` for a string: it succeeds exactly for the keys
/// under which the configuration holds a string, and gives that string. Nothing is
/// said of the error.
#[verifier::external_body]
fn extract_string(config: &Figment, key: &str) -> (value: Result<String, figment::Error>)
    ensures
        value is Ok <==> config_strings(*config).contains_key(key@),
        value matches Ok(v) ==> v@ == config_strings(*config)[key@],
{
    config.extract_inner::<String>(key)
}

/// What an emitter has written so far, and its configuration.
#[verifier::ext_equal]
pub struct EmitterState {
    pub out: Seq<u8>,
    pub config: Figment,
}

impl EmitterState {
    /// The state after more bytes have been written.
    pub open spec fn wrote(self, bytes: Seq<u8>) -> EmitterState {
        EmitterState { out: self.out + bytes, config: self.config }
    }
}

/// Collects the text of a Ninja file.
pub struct Emitter {
    pub out: Vec<u8>,
    pub config: Figment,
}

impl View for Emitter {
    type V = EmitterState;

    open spec fn view(&self) -> EmitterState {
        EmitterState { out: self.out@, config: self.config }
    }
}

/// A Ninja variable declaration.
pub open spec fn var_text(name: Seq<char>, value: Seq<char>) -> Seq<u8> {
    encode_utf8(name) + encode_utf8(" = "@) + encode_utf8(value) + encode_utf8("\n"@)
}

/// A Ninja rule definition.
pub open spec fn rule_text(name: Seq<char>, command: Seq<char>) -> Seq<u8> {
    encode_utf8("rule "@) + encode_utf8(name) + encode_utf8("\n  command = "@) + encode_utf8(
        command,
    ) + encode_utf8("\n"@)
}

/// A Ninja build command.
pub open spec fn build_text(rule: Seq<char>, input: Seq<u8>, output: Seq<u8>) -> Seq<u8> {
    encode_utf8("build "@) + output + encode_utf8(": "@) + encode_utf8(rule) + encode_utf8(" "@)
        + input + encode_utf8("\n"@)
}

impl Emitter {
    /// An emitter that has written nothing.
    pub fn new(config: Figment) -> (emitter: Self)
        ensures
            emitter@ == (EmitterState { out: Seq::empty(), config }),
    {
        Emitter { out: Vec::new(), config }
    }

    /// Append bytes to the output.
    pub fn write_bytes(&mut self, bytes: &[u8])
        ensures
            final(self)@ == old(self)@.wrote(bytes@),
    {
        self.out.extend_from_slice(bytes);
        assert(self.out@ =~= old(self).out@ + bytes@);
    }

    /// Append text to the output.
    pub fn write_str(&mut self, text: &str)
        ensures
            final(self)@ == old(self)@.wrote(encode_utf8(text@)),
    {
        self.write_bytes(text.as_bytes());
    }

    /// Look up a configuration value.
    pub fn config_get(&self, key: &str) -> (value: Option<String>)
        ensures
            value is Some <==> config_strings(self.config).contains_key(key@),
            value matches Some(v) ==> v@ == config_strings(self.config)[key@],
    {
        match extract_string(&self.config, key) {
            Ok(value) => Some(value),
            Err(_) => None,
        }
    }

    /// Fetch a configuration value that is known to be there.
    pub fn config_val(&self, key: &str) -> (value: String)
        requires
            config_strings(self.config).contains_key(key@),
        ensures
            value@ == config_strings(self.config)[key@],
    {
        self.config_get(key).expect("missing config key")
    }

    /// Fetch a configuration value, using a default if it's missing.
    pub fn config_or(&self, key: &str, default: &str) -> (value: String)
        ensures
            value@ == (if config_strings(self.config).contains_key(key@) {
                config_strings(self.config)[key@]
            } else {
                default@
            }),
    {
        match self.config_get(key) {
            Some(value) => value,
            None => default.to_string(),
        }
    }

    /// Emit a Ninja variable declaration for `name` based on the configured value for `key`.
    pub fn config_var(&mut self, name: &str, key: &str) -> (r: std::io::Result<()>)
        requires
            config_strings(old(self).config).contains_key(key@),
        ensures
            r is Ok,
            final(self)@ == old(self)@.wrote(
                var_text(name@, config_strings(old(self).config)[key@]),
            ),
    {
        let value = self.config_val(key);
        self.var(name, value.as_str())
    }

    /// Emit a Ninja variable declaration for `name` based on the configured value for `key`, or a
    /// default value if it's missing.
    pub fn config_var_or(&mut self, name: &str, key: &str, default: &str) -> (r: std::io::Result<
        (),
    >)
        ensures
            r is Ok,
            final(self)@ == old(self)@.wrote(
                var_text(
                    name@,
                    if config_strings(old(self).config).contains_key(key@) {
                        config_strings(old(self).config)[key@]
                    } else {
                        default@
                    },
                ),
            ),
    {
        let value = self.config_or(key, default);
        self.var(name, value.as_str())
    }

    /// Emit a Ninja variable declaration.
    pub fn var(&mut self, name: &str, value: &str) -> (r: std::io::Result<()>)
        ensures
            r is Ok,
            final(self)@ == old(self)@.wrote(var_text(name@, value@)),
    {
        self.write_str(name);
        self.write_str(" = ");
        self.write_str(value);
        self.write_str("\n");
        assert(self@ =~= old(self)@.wrote(var_text(name@, value@)));
        Ok(())
    }

    /// Emit a Ninja rule definition.
    pub fn rule(&mut self, name: &str, command: &str) -> (r: std::io::Result<()>)
        ensures
            r is Ok,
            final(self)@ == old(self)@.wrote(rule_text(name@, command@)),
    {
        self.write_str("rule ");
        self.write_str(name);
        self.write_str("\n  command = ");
        self.write_str(command);
        self.write_str("\n");
        assert(self@ =~= old(self)@.wrote(rule_text(name@, command@)));
        Ok(())
    }

    /// Emit a Ninja build command.
    pub fn build(&mut self, rule: &str, input: &FilePath, output: &FilePath) -> (r: std::io::Result<
        (),
    >)
        ensures
            r is Ok,
            final(self)@ == old(self)@.wrote(build_text(rule@, input@, output@)),
    {
        self.write_str("build ");
        self.write_bytes(output.bytes.as_slice());
        self.write_str(": ");
        self.write_str(rule);
        self.write_str(" ");
        self.write_bytes(input.bytes.as_slice());
        self.write_str("\n");
        assert(self@ =~= old(self)@.wrote(build_text(rule@, input@, output@)));
        Ok(())
    }
}

/// The bytes of the fixed parts of what an emitter writes.
proof fn lemma_literals()
    ensures
        encode_utf8(" = "@) == seq![0x20u8, 0x3d, 0x20],
        encode_utf8("\n"@) == seq![0x0au8],
        encode_utf8("rule "@) == seq![0x72u8, 0x75, 0x6c, 0x65, 0x20],
        encode_utf8("\n  command = "@) == seq![0x0au8, 0x20, 0x20] + seq![
            0x63u8,
            0x6f,
            0x6d,
            0x6d,
            0x61,
            0x6e,
            0x64,
        ] + seq![0x20u8, 0x3d, 0x20],
        encode_utf8("build "@) == seq![0x62u8, 0x75, 0x69, 0x6c, 0x64, 0x20],
        encode_utf8(": "@) == seq![0x3au8, 0x20],
        encode_utf8(" "@) == seq![0x20u8],
{
    reveal_strlit(" = ");
    reveal_strlit("\n");
    reveal_strlit("rule ");
    reveal_strlit("\n  command = ");
    reveal_strlit("build ");
    reveal_strlit(": ");
    reveal_strlit(" ");
    is_ascii_chars_encode_utf8(" = "@);
    is_ascii_chars_encode_utf8("\n"@);
    is_ascii_chars_encode_utf8("rule "@);
    is_ascii_chars_encode_utf8("\n  command = "@);
    is_ascii_chars_encode_utf8("build "@);
    is_ascii_chars_encode_utf8(": "@);
    is_ascii_chars_encode_utf8(" "@);
    assert(encode_utf8(" = "@) =~= seq![0x20u8, 0x3d, 0x20]);
    assert(encode_utf8("\n"@) =~= seq![0x0au8]);
    assert(encode_utf8("rule "@) =~= seq![0x72u8, 0x75, 0x6c, 0x65, 0x20]);
    assert(encode_utf8("\n  command = "@) =~= seq![0x0au8, 0x20, 0x20] + seq![
        0x63u8,
        0x6f,
        0x6d,
        0x6d,
        0x61,
        0x6e,
        0x64,
    ] + seq![0x20u8, 0x3d, 0x20]);
    assert(encode_utf8("build "@) =~= seq![0x62u8, 0x75, 0x69, 0x6c, 0x64, 0x20]);
    assert(encode_utf8(": "@) =~= seq![0x3au8, 0x20]);
    assert(encode_utf8(" "@) =~= seq![0x20u8]);
}

impl Emitter {
    /// A new emitter has written nothing, and has the configuration that it was given.
    pub proof fn law_new(config: Figment, emitter: Emitter)
        requires
            call_ensures(Emitter::new, (config,), emitter),
        ensures
            emitter.out@.len() == 0,
            emitter.config == config,
    {
        assert(emitter@.out.len() == 0);
    }

    /// Bytes are put behind what was written before, and nothing else changes.
    pub proof fn law_write_bytes(emitter: &mut Emitter, bytes: &[u8])
        requires
            call_ensures(Emitter::write_bytes, (emitter, bytes), ()),
        ensures
            final(emitter).config == old(emitter).config,
            final(emitter).out@.len() == old(emitter).out@.len() + bytes@.len(),
            final(emitter).out@.take(old(emitter).out@.len() as int) == old(emitter).out@,
            final(emitter).out@.skip(old(emitter).out@.len() as int) == bytes@,
    {
        assert(final(emitter)@.out == old(emitter)@.out + bytes@);
        assert(final(emitter)@.config == old(emitter)@.config);
        assert(final(emitter).out@.take(old(emitter).out@.len() as int) =~= old(emitter).out@);
        assert(final(emitter).out@.skip(old(emitter).out@.len() as int) =~= bytes@);
    }

    /// Text is put behind what was written before, as its UTF-8 bytes, and nothing else
    /// changes.
    pub proof fn law_write_str(emitter: &mut Emitter, text: &str)
        requires
            call_ensures(Emitter::write_str, (emitter, text), ()),
        ensures
            final(emitter).config == old(emitter).config,
            final(emitter).out@.take(old(emitter).out@.len() as int) == old(emitter).out@,
            final(emitter).out@.skip(old(emitter).out@.len() as int) == encode_utf8(text@),
            decode_utf8(final(emitter).out@.skip(old(emitter).out@.len() as int)) == text@,
    {
        assert(final(emitter)@.out == old(emitter)@.out + encode_utf8(text@));
        assert(final(emitter)@.config == old(emitter)@.config);
        assert(final(emitter).out@.take(old(emitter).out@.len() as int) =~= old(emitter).out@);
        assert(final(emitter).out@.skip(old(emitter).out@.len() as int) =~= encode_utf8(text@));
        encode_utf8_decode_utf8(text@);
    }

    /// What a declaration of any name and value adds to the output: the name, ` = `, the
    /// value as it is, and the end of the line. Both can be read back whole, and what was
    /// written before stays.
    pub proof fn law_var(emitter: &mut Emitter, name: &str, value: &str, r: std::io::Result<()>)
        requires
            call_ensures(Emitter::var, (emitter, name, value), r),
        ensures
            r is Ok,
            final(emitter).config == old(emitter).config,
            ({
                let before = old(emitter).out@.len() as int;
                let n = encode_utf8(name@).len() as int;
                let v = encode_utf8(value@).len() as int;
                let out = final(emitter).out@;
                &&& out.len() == before + n + 3 + v + 1
                &&& out.take(before) == old(emitter).out@
                &&& out.subrange(before, before + n) == encode_utf8(name@)
                &&& out.subrange(before + n, before + n + 3) == seq![0x20u8, 0x3d, 0x20]
                &&& out.subrange(before + n + 3, before + n + 3 + v) == encode_utf8(value@)
                &&& out[before + n + 3 + v] == 0x0a
            }),
    {
        lemma_literals();
        lemma_declared(
            old(emitter).out@,
            final(emitter).out@,
            encode_utf8(name@),
            encode_utf8(value@),
        );
    }

    /// A declaration for a configured value adds the name, ` = `, the value that the key
    /// has, as it is, and the end of the line.
    pub proof fn law_config_var(
        emitter: &mut Emitter,
        name: &str,
        key: &str,
        r: std::io::Result<()>,
    )
        requires
            call_ensures(Emitter::config_var, (emitter, name, key), r),
        ensures
            r is Ok,
            final(emitter).config == old(emitter).config,
            ({
                let value = encode_utf8(config_strings(old(emitter).config)[key@]);
                let before = old(emitter).out@.len() as int;
                let n = encode_utf8(name@).len() as int;
                let v = value.len() as int;
                let out = final(emitter).out@;
                &&& out.len() == before + n + 3 + v + 1
                &&& out.take(before) == old(emitter).out@
                &&& out.subrange(before, before + n) == encode_utf8(name@)
                &&& out.subrange(before + n, before + n + 3) == seq![0x20u8, 0x3d, 0x20]
                &&& out.subrange(before + n + 3, before + n + 3 + v) == value
                &&& out[before + n + 3 + v] == 0x0a
            }),
    {
        lemma_literals();
        lemma_declared(
            old(emitter).out@,
            final(emitter).out@,
            encode_utf8(name@),
            encode_utf8(config_strings(old(emitter).config)[key@]),
        );
    }

    /// A declaration for a configured value with a default adds the name, ` = `, what
    /// `config_or` gives for the key and the default, as it is, and the end of the line.
    pub proof fn law_config_var_or(
        emitter: &mut Emitter,
        name: &str,
        key: &str,
        default: &str,
        value: String,
        r: std::io::Result<()>,
    )
        requires
            call_ensures(Emitter::config_var_or, (emitter, name, key, default), r),
            call_ensures(Emitter::config_or, (old(emitter), key, default), value),
        ensures
            r is Ok,
            final(emitter).config == old(emitter).config,
            ({
                let before = old(emitter).out@.len() as int;
                let n = encode_utf8(name@).len() as int;
                let v = encode_utf8(value@).len() as int;
                let out = final(emitter).out@;
                &&& out.len() == before + n + 3 + v + 1
                &&& out.take(before) == old(emitter).out@
                &&& out.subrange(before, before + n) == encode_utf8(name@)
                &&& out.subrange(before + n, before + n + 3) == seq![0x20u8, 0x3d, 0x20]
                &&& out.subrange(before + n + 3, before + n + 3 + v) == encode_utf8(value@)
                &&& out[before + n + 3 + v] == 0x0a
            }),
    {
        lemma_literals();
        lemma_declared(
            old(emitter).out@,
            final(emitter).out@,
            encode_utf8(name@),
            encode_utf8(value@),
        );
    }

    /// A value that the configuration has is given whatever the default is, and the
    /// default is given, as it is, exactly where it has none.
    pub proof fn law_config_or(
        self,
        key: &str,
        default: &str,
        got: Option<String>,
        value: String,
    )
        requires
            call_ensures(Emitter::config_get, (&self, key), got),
            call_ensures(Emitter::config_or, (&self, key, default), value),
        ensures
            got is Some <==> config_strings(self.config).contains_key(key@),
            got matches Some(g) ==> g@ == config_strings(self.config)[key@],
            got matches Some(g) ==> value@ == g@,
            got is None ==> value@ == default@,
    {
    }

    /// Where the configuration has a value, fetching it gives the same as looking it up,
    /// and is always possible.
    pub proof fn law_config_val(self, key: &str, got: Option<String>, value: String)
        requires
            call_ensures(Emitter::config_get, (&self, key), got),
            got is Some,
            call_ensures(Emitter::config_val, (&self, key), value),
        ensures
            call_requires(Emitter::config_val, (&self, key)),
            value@ == got->0@,
    {
    }

    /// What a rule definition adds to the output: `rule` and the name on one line, and on
    /// the next, indented by two spaces, `command = ` and the command as it is. What was
    /// written before stays.
    pub proof fn law_rule(emitter: &mut Emitter, name: &str, command: &str, r: std::io::Result<()>)
        requires
            call_ensures(Emitter::rule, (emitter, name, command), r),
        ensures
            r is Ok,
            final(emitter).config == old(emitter).config,
            ({
                let before = old(emitter).out@.len() as int;
                let n = encode_utf8(name@).len() as int;
                let c = encode_utf8(command@).len() as int;
                let out = final(emitter).out@;
                let second = before + 5 + n + 1;
                &&& out.len() == before + 5 + n + 1 + 12 + c + 1
                &&& out.take(before) == old(emitter).out@
                &&& out.subrange(before, before + 5) == seq![0x72u8, 0x75, 0x6c, 0x65, 0x20]
                &&& out.subrange(before + 5, before + 5 + n) == encode_utf8(name@)
                &&& out[before + 5 + n] == 0x0a
                &&& out.subrange(second, second + 2) == seq![0x20u8, 0x20]
                &&& out.subrange(second + 2, second + 9) == seq![
                    0x63u8,
                    0x6f,
                    0x6d,
                    0x6d,
                    0x61,
                    0x6e,
                    0x64,
                ]
                &&& out.subrange(second + 9, second + 12) == seq![0x20u8, 0x3d, 0x20]
                &&& out.subrange(second + 12, second + 12 + c) == encode_utf8(command@)
                &&& out[second + 12 + c] == 0x0a
            }),
    {
        lemma_literals();
        let before = old(emitter).out@.len() as int;
        let n = encode_utf8(name@).len() as int;
        let c = encode_utf8(command@).len() as int;
        let out = final(emitter).out@;
        let second = before + 5 + n + 1;
        assert(final(emitter)@.config == old(emitter)@.config);
        assert(out == old(emitter)@.out + (encode_utf8("rule "@) + encode_utf8(name@)
            + encode_utf8("\n  command = "@) + encode_utf8(command@) + encode_utf8("\n"@)));
        assert(out.take(before) =~= old(emitter).out@);
        assert(out.subrange(before, before + 5) =~= seq![0x72u8, 0x75, 0x6c, 0x65, 0x20]);
        assert(out.subrange(before + 5, before + 5 + n) =~= encode_utf8(name@));
        assert(out.subrange(second, second + 2) =~= seq![0x20u8, 0x20]);
        assert(out.subrange(second + 2, second + 9) =~= seq![
            0x63u8,
            0x6f,
            0x6d,
            0x6d,
            0x61,
            0x6e,
            0x64,
        ]);
        assert(out.subrange(second + 9, second + 12) =~= seq![0x20u8, 0x3d, 0x20]);
        assert(out.subrange(second + 12, second + 12 + c) =~= encode_utf8(command@));
    }

    /// What a build command adds to the output: `build `, the output file, `: `, the rule,
    /// a space, the input file and the end of the line. The files stand in it byte for
    /// byte, and what was written before stays.
    pub proof fn law_build(
        emitter: &mut Emitter,
        rule: &str,
        input: &FilePath,
        output: &FilePath,
        r: std::io::Result<()>,
    )
        requires
            call_ensures(Emitter::build, (emitter, rule, input, output), r),
        ensures
            r is Ok,
            final(emitter).config == old(emitter).config,
            ({
                let before = old(emitter).out@.len() as int;
                let n = encode_utf8(rule@).len() as int;
                let out = final(emitter).out@;
                let colon = before + 6 + output.bytes@.len();
                let space = colon + 2 + n;
                let end = space + 1 + input.bytes@.len();
                &&& out.len() == end + 1
                &&& out.take(before) == old(emitter).out@
                &&& out.subrange(before, before + 6) == seq![0x62u8, 0x75, 0x69, 0x6c, 0x64, 0x20]
                &&& out.subrange(before + 6, colon) == output.bytes@
                &&& out.subrange(colon, colon + 2) == seq![0x3au8, 0x20]
                &&& out.subrange(colon + 2, space) == encode_utf8(rule@)
                &&& out[space] == 0x20
                &&& out.subrange(space + 1, end) == input.bytes@
                &&& out[end] == 0x0a
            }),
    {
        lemma_literals();
        let before = old(emitter).out@.len() as int;
        let n = encode_utf8(rule@).len() as int;
        let out = final(emitter).out@;
        let colon = before + 6 + output.bytes@.len();
        let space = colon + 2 + n;
        let end = space + 1 + input.bytes@.len();
        assert(final(emitter)@.config == old(emitter)@.config);
        assert(out == old(emitter)@.out + (encode_utf8("build "@) + output@ + encode_utf8(": "@)
            + encode_utf8(rule@) + encode_utf8(" "@) + input@ + encode_utf8("\n"@)));
        assert(out.take(before) =~= old(emitter).out@);
        assert(out.subrange(before, before + 6) =~= seq![0x62u8, 0x75, 0x69, 0x6c, 0x64, 0x20]);
        assert(out.subrange(before + 6, colon) =~= output.bytes@);
        assert(out.subrange(colon, colon + 2) =~= seq![0x3au8, 0x20]);
        assert(out.subrange(colon + 2, space) =~= encode_utf8(rule@));
        assert(out.subrange(space + 1, end) =~= input.bytes@);
    }
}

/// The parts of a declaration that was put behind `before`.
proof fn lemma_declared(before: Seq<u8>, out: Seq<u8>, name: Seq<u8>, value: Seq<u8>)
    requires
        out == before + (name + seq![0x20u8, 0x3d, 0x20] + value + seq![0x0au8]),
    ensures
        ({
            let b = before.len() as int;
            let n = name.len() as int;
            let v = value.len() as int;
            &&& out.len() == b + n + 3 + v + 1
            &&& out.take(b) == before
            &&& out.subrange(b, b + n) == name
            &&& out.subrange(b + n, b + n + 3) == seq![0x20u8, 0x3d, 0x20]
            &&& out.subrange(b + n + 3, b + n + 3 + v) == value
            &&& out[b + n + 3 + v] == 0x0a
        }),
{
    let b = before.len() as int;
    let n = name.len() as int;
    let v = value.len() as int;
    assert(out.take(b) =~= before);
    assert(out.subrange(b, b + n) =~= name);
    assert(out.subrange(b + n, b + n + 3) =~= seq![0x20u8, 0x3d, 0x20]);
    assert(out.subrange(b + n + 3, b + n + 3 + v) =~= value);
}

/// A generated Ninja setup stanza.
pub trait Setup {
    /// What the setup may do: the emitter before and after, and how it ended. Unless a
    /// setup says more of itself, it may do anything.
    open spec fn emits(
        &self,
        before: EmitterState,
        after: EmitterState,
        result: std::io::Result<()>,
    ) -> bool {
        true
    }

    fn setup(&self, emitter: &mut Emitter) -> (result: std::io::Result<()>)
        ensures
            self.emits(old(emitter)@, final(emitter)@, result),
    ;
}

/// The actual Ninja-generating machinery for an operation.
pub trait OpImpl {
    /// What building `output` from `input` may do: the emitter before and after,
    /// and how it ended. Unless an operation says more of itself, it may do anything.
    open spec fn emits(
        &self,
        input: Seq<u8>,
        output: Seq<u8>,
        before: EmitterState,
        after: EmitterState,
        result: std::io::Result<()>,
    ) -> bool {
        true
    }

    fn build(&self, emitter: &mut Emitter, input: &FilePath, output: &FilePath) -> (result:
        std::io::Result<()>)
        ensures
            self.emits(input@, output@, old(emitter)@, final(emitter)@, result),
    ;
}

/// A value that is kept as it was given.
pub struct Held<T> {
    pub inner: T,
}

/// Metadata about an operation that controls when it applies.
pub struct OpMeta {
    pub name: String,
    pub input: StateRef,
    pub output: StateRef,
    pub setup: Option<SetupRef>,
}

/// An Operation transforms files from one State to another.
pub struct Operation {
    pub meta: OpMeta,
    pub impl_: Held<Box<dyn OpImpl>>,
}

/// An operation that works by applying a Ninja rule.
pub struct RuleOp {
    pub rule_name: String,
}

/// What applying a Ninja rule does: it writes one build command, and succeeds.
pub open spec fn rule_emits(
    rule: Seq<char>,
    input: Seq<u8>,
    output: Seq<u8>,
    before: EmitterState,
    after: EmitterState,
    result: std::io::Result<()>,
) -> bool {
    &&& result is Ok
    &&& after == before.wrote(build_text(rule, input, output))
}

impl OpImpl for RuleOp {
    open spec fn emits(
        &self,
        input: Seq<u8>,
        output: Seq<u8>,
        before: EmitterState,
        after: EmitterState,
        result: std::io::Result<()>,
    ) -> bool {
        rule_emits(self.rule_name@, input, output, before, after, result)
    }

    fn build(&self, emitter: &mut Emitter, input: &FilePath, output: &FilePath) -> (result:
        std::io::Result<()>) {
        emitter.build(self.rule_name.as_str(), input, output)
    }
}

impl Operation {
    /// Whether the operation works by applying the given Ninja rule.
    pub open spec fn applies_rule(self, rule: Seq<char>) -> bool {
        forall|
            input: Seq<u8>,
            output: Seq<u8>,
            before: EmitterState,
            after: EmitterState,
            result: std::io::Result<()>,
        | #[trigger]
            self.impl_.inner.emits(input, output, before, after, result) <==> rule_emits(
                rule,
                input,
                output,
                before,
                after,
                result,
            )
    }
}

impl Operation {
    /// An operation that applies a Ninja rule does nothing but put one line behind what was
    /// written before, and it always succeeds: `build `, the output file, `: `, the rule, a
    /// space, the input file.
    pub proof fn law_applied_rule(
        self,
        rule: Seq<char>,
        input: Seq<u8>,
        output: Seq<u8>,
        before: EmitterState,
        after: EmitterState,
        result: std::io::Result<()>,
    )
        requires
            self.applies_rule(rule),
        ensures
            self.impl_.inner.emits(input, output, before, after, result) <==> {
                &&& result is Ok
                &&& after.config == before.config
                &&& after.out == before.out + (seq![0x62u8, 0x75, 0x69, 0x6c, 0x64, 0x20] + output
                    + seq![0x3au8, 0x20] + encode_utf8(rule) + seq![0x20u8] + input + seq![0x0au8])
            },
    {
        lemma_literals();
        if result is Ok && after.config == before.config && after.out == before.out
            + build_text(rule, input, output) {
            assert(after =~= before.wrote(build_text(rule, input, output)));
        }
    }
}

impl RuleOp {
    /// Applying a rule to any files does nothing but put one line behind what was written
    /// before, and it always succeeds: `build `, the output file, `: `, the name of the rule,
    /// a space, the input file.
    pub proof fn law_rule_applied(
        self,
        input: Seq<u8>,
        output: Seq<u8>,
        before: EmitterState,
        after: EmitterState,
        result: std::io::Result<()>,
    )
        ensures
            self.emits(input, output, before, after, result) <==> {
                &&& result is Ok
                &&& after.config == before.config
                &&& after.out == before.out + (seq![0x62u8, 0x75, 0x69, 0x6c, 0x64, 0x20] + output
                    + seq![0x3au8, 0x20] + encode_utf8(self.rule_name@) + seq![0x20u8] + input
                    + seq![0x0au8])
            },
    {
        lemma_literals();
        let rule = self.rule_name@;
        if result is Ok && after.config == before.config && after.out == before.out
            + build_text(rule, input, output) {
            assert(after =~= before.wrote(build_text(rule, input, output)));
        }
    }
}

} // verus!
