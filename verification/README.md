# ret2shell_config

The configuration of the Ret2Shell platform, as a verified library: a TOML
document whose values can refer to environment variables with `${NAME}`
placeholders, and whose fields `R2S_CONFIG__<SECTION>__<FIELD>` variables
override.

- `src/text.rs`: texts as sequences of characters; cutting at byte offsets,
  searching, ordering, decimal numbers.
- `src/mask.rs`, `src/mask_laws.rs`, `src/mask_twice.rs`: finding placeholders,
  masking the bare ones so that the document can be read, and what holds of every
  masked document.
- `src/document.rs`: TOML values, read with the `toml` crate.
- `src/reading.rs`, `src/reading_laws.rs`: reading a masked document so that its
  own texts are told from the markers.
- `src/names.rs`: sets of names in text order.
- `src/env.rs`, `src/env_laws.rs`: resolving placeholders, and what holds of
  every resolution.
- `src/overrides.rs`, `src/overrides_laws.rs`, `src/fields.rs`: variables that
  override fields, and what kind of value a field takes.
- `src/config.rs`, `src/auth.rs`, `src/captcha.rs`, `src/server.rs`: the
  configuration, its errors, and where its file is looked up.
- `app/`: reading the file and the environment, and the types as they are
  deserialized.
