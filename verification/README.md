# hidctl

Lists the HID device interfaces present on a Windows machine, grouped by the
physical device they belong to (`hidctl [--vid <id>] [--pid <id>] [asus] [--detail]`).

- `src/` is the verified library: the usage-page tables, parsing VID/PID out of
  instance IDs, the command line, filtering, the stable listing order, grouping
  and naming of physical devices, and every line the lister prints. Each public
  function states what it returns in its contract, and the properties that span
  functions (command-line forms that agree, the order keeping a device's
  interfaces together, the sort having a single outcome, printed IDs parsing
  back) are proof functions.
- `app/` is the program around it: the SetupAPI and HID class driver calls,
  which hand their results to the library as plain values.
- `tests/` runs the library on concrete devices and command lines.
