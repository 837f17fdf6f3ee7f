[package]
name = "lifecycle"
version = "0.1.0"
edition = "2021"
publish = false

[dependencies]
bytes = "=1.12.1"
tracing = "=0.1.44"
tracing-subscriber = "=0.3.23"
pin-project = "=1.1.13"
futures = "=0.3.34"
commonware-codec = "=2026.9.0"
commonware-cryptography = "=2026.9.0"
commonware-runtime = "=2026.9.0"
commonware-actor = "=2026.9.0"
commonware-parallel = "=2026.9.0"
commonware-macros = "=2026.9.0"
# The macros of the crates above. Nothing here names them: they are held at the same
# release, since a later one does not build with it.
commonware-codec-macros = "=2026.9.0"
commonware-runtime-macros = "=2026.9.0"
commonware-macros-impl = "=2026.9.0"
