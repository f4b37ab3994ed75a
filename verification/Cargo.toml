[package]
name = "polynomial_ops"
version = "0.1.0"
edition = "2021"

[dependencies]
num-traits = "*"
num_identities_const = "*"
array__ops = "*"
array_trait = "*"
currying = "*"
fn_zip = "*"
moddef = "*"
